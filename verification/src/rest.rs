// This file is part of Lectev.
//
//  Lectev is free software: you can redistribute it and/or modify
//  it under the terms of the GNU General Public License as published by
//  the Free Software Foundation, either version 3 of the License, or
//  (at your option) any later version.
//
//  Lectev is distributed in the hope that it will be useful,
//  but WITHOUT ANY WARRANTY; without even the implied warranty of
//  MERCHANTABILITY or FITNESS FOR A PARTICULAR PURPOSE.  See the
//  GNU General Public License for more details.
//
//  You should have received a copy of the GNU General Public License
//  along with Lectev.  If not, see <https://www.gnu.org/licenses/>.

//! What a request to the tracker carries to say who is asking.
use vstd::prelude::*;
use vstd::string::StringExecFns;
use vstd::utf8::encode_utf8;

verus! {

/// Why the credentials could not be made into a header.
#[derive(Debug, PartialEq, Eq)]
pub enum Error {
    /// The user name is too long to be encoded.
    InvalidUsername { username: String },
    /// The user name and the password together are too long to be encoded.
    InvalidPassword,
}

/// What [`base64::encode_config`] makes of the UTF-8 bytes of `text`, in
/// the standard alphabet with padding.
pub uninterp spec fn base64_of(text: Seq<char>) -> Seq<char>;

/// The length of `text` in bytes, as `str::len` reports it.
pub open spec fn byte_len(text: Seq<char>) -> usize {
    encode_utf8(text).len() as usize
}

/// The longest text, in bytes, that is handed to the encoder: its result is
/// a third longer, and has to fit.
pub open spec fn longest_encodable() -> usize {
    (usize::MAX / 2) as usize
}

/// [`base64::encode_config`] with [`base64::STANDARD`], on the UTF-8 bytes
/// of `text`. The function panics where the length of its result does not
/// fit in a `usize`, which `requires` rules out. Its result is what
/// `base64_of` names.
#[verifier::external_body]
fn encode_base64(text: &String) -> (encoded: String)
    requires
        byte_len(text@) <= longest_encodable(),
    ensures
        encoded@ == base64_of(text@),
{
    base64::encode_config(text.as_bytes(), base64::STANDARD)
}

/// The value of the `Authorization` header for these credentials, given
/// the encoding of `username:password`.
pub open spec fn basic_auth_value(encoded_credentials: Seq<char>) -> Seq<char> {
    "Basic "@ + encoded_credentials
}

/// The text `username:password`.
pub open spec fn credentials(username: Seq<char>, password: Seq<char>) -> Seq<char> {
    username + ":"@ + password
}

/// Puts the word `Basic` before the encoded credentials.
pub fn basic_auth_header(encoded_credentials: &String) -> (header_value: String)
    ensures
        header_value@ == basic_auth_value(encoded_credentials@),
{
    let mut header_value = "Basic ".to_owned();
    header_value.append(encoded_credentials.as_str());
    header_value
}

/// The value of the `Authorization` header that lets `username` in with
/// `password`: the word `Basic` and the base64 encoding of
/// `username:password`. Credentials that take more than half the address
/// space are refused: the user name where it is too long by itself, the
/// password otherwise.
pub fn basic_auth(username: &String, password: &String) -> (result: Result<String, Error>)
    ensures
        byte_len(username@ + ":"@) > longest_encodable() ==> (result matches Err(
            Error::InvalidUsername { username: refused },
        ) && refused@ == username@),
        byte_len(username@ + ":"@) <= longest_encodable() && byte_len(
            credentials(username@, password@),
        ) > longest_encodable() ==> result matches Err(Error::InvalidPassword),
        byte_len(username@ + ":"@) <= longest_encodable() && byte_len(
            credentials(username@, password@),
        ) <= longest_encodable() ==> (result matches Ok(header_value) && header_value@
            == basic_auth_value(base64_of(credentials(username@, password@)))),
{
    let mut text = username.clone();
    text.append(":");
    if text.as_str().len() > usize::MAX / 2 {
        return Err(Error::InvalidUsername { username: username.clone() });
    }
    text.append(password.as_str());
    if text.as_str().len() > usize::MAX / 2 {
        return Err(Error::InvalidPassword);
    }
    let encoded = encode_base64(&text);
    Ok(basic_auth_header(&encoded))
}

} // verus!
