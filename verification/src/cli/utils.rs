use vstd::prelude::*;
use crate::codec::{decode_base64_spec, push_str, to_owned_string};
use crate::text::{split_and_clean, split_and_clean_spec, views};
use crate::wire::decode_base64_text;
pub use crate::wire::Address;

verus! {

/// Where and as whom the terminal client connects.
pub struct ConnectionData {
    pub server: String,
    pub group: String,
    pub name: String,
    pub password: String,
}

impl Clone for ConnectionData {
    fn clone(&self) -> (res: Self)
        ensures
            res.server@ == self.server@,
            res.group@ == self.group@,
            res.name@ == self.name@,
            res.password@ == self.password@,
    {
        ConnectionData {
            server: self.server.clone(),
            group: self.group.clone(),
            name: self.name.clone(),
            password: self.password.clone(),
        }
    }
}

impl ConnectionData {
    /// The websocket URL of the server: `http://<server>/ws/`.
    pub fn get_ip(&self) -> (res: String)
        ensures
            res@ == "http://"@ + self.server@ + "/ws/"@,
    {
        let mut s = to_owned_string("http://");
        push_str(&mut s, self.server.as_str());
        push_str(&mut s, "/ws/");
        s
    }
}

/// The UTF-8 text that the Base64 text `inTxt` encodes.
pub fn decodeBase64(inTxt: &str) -> (res: String)
    requires
        decode_base64_spec(inTxt@) is Some,
    ensures
        decode_base64_spec(inTxt@) == Some(res@),
{
    decode_base64_text(inTxt)
}

/// `text` split at `split`, each piece trimmed, the empty pieces dropped.
pub fn splitAndClean<'a>(text: &'a str, split: char) -> (res: Vec<&'a str>)
    ensures
        views(res@) == split_and_clean_spec(text@, split),
{
    split_and_clean(text, split)
}

}
