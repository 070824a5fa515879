//! What the terminal client does with a line that its user typed: a command, or a message.
use vstd::prelude::*;
use vstd::utf8::*;
use crate::cli::encrypter::{
    any_trusting, encrypt_spec, first_named, person_line, sealed_for, Crypto, KeyBundleView,
};
use crate::codec::{base64_encode, base64_encode_spec, push_str, to_owned_string};
use crate::crypto::{aes_plaintext_ok, x25519_shared};
use crate::text::{join, split_and_clean, split_and_clean_spec, str_equal, views, join_words};
use crate::wire::{ContentView, MsgContent};

verus! {

/// A line that the user typed.
pub struct ClientCommand(pub String);

/// What handling a line gives: the content to send, if any, the lines to show the user and
/// the error to report.
pub struct CommandReply {
    pub content: Option<MsgContent>,
    pub lines: Vec<String>,
    pub error: Option<String>,
}

/// The content that `c` carries, as a view.
pub open spec fn content_view(c: Option<MsgContent>) -> Option<ContentView> {
    match c {
        Some(m) => Some(m@),
        None => None,
    }
}

/// The words of a command line.
pub open spec fn command_words(line: Seq<char>) -> Seq<Seq<char>> {
    split_and_clean_spec(line, ' ')
}

/// Whether the line is a command: it starts with `/`.
pub open spec fn is_command(line: Seq<char>) -> bool {
    line.len() > 0 && line[0] == '/'
}

/// What the reply to a line holds besides the content: nothing to show and no error.
pub open spec fn quiet(r: CommandReply) -> bool {
    r.lines@.len() == 0 && r.error is None
}

fn line_is_command(line: &String) -> (r: bool)
    requires
        line@.len() > 0,
    ensures
        r == is_command(line@),
{
    let s = line.as_str();
    s.get_char(0) == '/'
}

impl ClientCommand {
    /// Handles the line: `/allowTrust` offers the public key, `/broadcast` sends the rest of
    /// the line in the clear, `/trust name` trusts that person, `/list` lists the people
    /// known; any other line is a message, sealed for the trusted people when there are any.
    pub fn handleSelf(self, state: &mut Crypto) -> (res: CommandReply)
        requires
            self.0@.len() > 0,
            is_command(self.0@) && command_words(self.0@).len() > 0 && command_words(self.0@)[0]
                == "/trust"@ ==> command_words(self.0@).len() >= 2,
            !is_command(self.0@) && any_trusting(old(state).people()) ==> aes_plaintext_ok(
                encode_utf8(self.0@).len(),
            ),
        ensures
            ({
                let line = self.0@;
                let w = command_words(line);
                if !is_command(line) {
                    &&& *final(state) == *old(state)
                    &&& quiet(res)
                    &&& if any_trusting(old(state).people()) {
                        &&& content_view(res.content) == Some(
                            ContentView::SecureText(encrypt_spec(old(state).people(), line)),
                        )
                        &&& sealed_for(old(state).people(), line)
                    } else {
                        content_view(res.content) == Some(ContentView::InsecureText(line))
                    }
                } else if w.len() > 0 && w[0] == "/trust"@ {
                    &&& final(state).same_keys(old(state))
                    &&& res.error is None
                    &&& match first_named(old(state).people(), w[1]) {
                        Some(i) => {
                            &&& content_view(res.content) == Some(
                                ContentView::Trust(old(state).people()[i].address),
                            )
                            &&& res.lines@.len() == 0
                            &&& final(state).people() == old(state).people().update(
                                i,
                                KeyBundleView {
                                    shared: Some(
                                        x25519_shared(
                                            old(state).secret(),
                                            old(state).people()[i].public,
                                        ),
                                    ),
                                    ..old(state).people()[i]
                                },
                            )
                        },
                        None => {
                            &&& res.content is None
                            &&& res.lines@.len() == 1
                            &&& res.lines@[0]@ == w[1]
                                + " has not allowed you to trust them or does not exist"@
                            &&& final(state).people() == old(state).people()
                        },
                    }
                } else {
                    &&& *final(state) == *old(state)
                    &&& if w.len() > 0 && w[0] == "/allowTrust"@ {
                        &&& quiet(res)
                        &&& content_view(res.content) == Some(
                            ContentView::PublicKey(base64_encode_spec(old(state).public())),
                        )
                    } else if w.len() > 0 && w[0] == "/broadcast"@ {
                        &&& quiet(res)
                        &&& content_view(res.content) == Some(
                            ContentView::InsecureText(join(w.drop_first(), ' ')),
                        )
                    } else if w.len() > 0 && w[0] == "/list"@ {
                        &&& res.content is None
                        &&& res.error is None
                        &&& res.lines@.len() == old(state).people().len()
                        &&& forall|i: int|
                            0 <= i < res.lines@.len() ==> (#[trigger] res.lines@[i])@ == person_line(
                                old(state).people()[i].address,
                            )
                    } else if w.len() > 0 {
                        &&& res.content is None
                        &&& res.lines@.len() == 0
                        &&& res.error matches Some(e) && e@ == "Command "@ + w[0]
                            + " was not recognized."@
                    } else {
                        &&& res.content is None
                        &&& quiet(res)
                    }
                }
            }),
    {
        let line = self.0;
        if !line_is_command(&line) {
            let content = if state.isTrusting() {
                MsgContent::SecureText(state.encrypt(line))
            } else {
                MsgContent::InsecureText(line)
            };
            return CommandReply { content: Some(content), lines: Vec::new(), error: None };
        }
        let words = split_and_clean(line.as_str(), ' ');
        proof {
            assert(views(words@) == command_words(line@));
        }
        if words.len() == 0 {
            return CommandReply { content: None, lines: Vec::new(), error: None };
        }
        let cmd = words[0];
        assert(cmd@ == command_words(line@)[0]);
        if str_equal(cmd, "/trust") {
            assert(words@.len() >= 2);
            assert(words@[1]@ == command_words(line@)[1]);
            let name = to_owned_string(words[1]);
            match state.trust(name) {
                Some(addr) => {
                    CommandReply { content: Some(MsgContent::Trust(addr)), lines: Vec::new(), error: None }
                },
                None => {
                    let mut msg = to_owned_string(words[1]);
                    push_str(&mut msg, " has not allowed you to trust them or does not exist");
                    let mut lines: Vec<String> = Vec::new();
                    lines.push(msg);
                    CommandReply { content: None, lines, error: None }
                },
            }
        } else if str_equal(cmd, "/allowTrust") {
            let pk = state.public_key();
            let key = base64_encode(pk.as_slice());
            CommandReply { content: Some(MsgContent::PublicKey(key)), lines: Vec::new(), error: None }
        } else if str_equal(cmd, "/broadcast") {
            let text = join_words(&words, 1);
            proof {
                assert(views(words@).subrange(1, words@.len() as int) =~= command_words(
                    line@,
                ).drop_first());
            }
            CommandReply {
                content: Some(MsgContent::InsecureText(text)),
                lines: Vec::new(),
                error: None,
            }
        } else if str_equal(cmd, "/list") {
            CommandReply { content: None, lines: state.listPeople(), error: None }
        } else {
            let mut msg = to_owned_string("Command ");
            push_str(&mut msg, cmd);
            push_str(&mut msg, " was not recognized.");
            CommandReply { content: None, lines: Vec::new(), error: Some(msg) }
        }
    }
}

} // verus!
