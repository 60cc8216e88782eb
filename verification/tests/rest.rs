// This file is part of Lectev.
//
//  Lectev is free software: you can redistribute it and/or modify
//  it under the terms of the GNU General Public License as published by
//  the Free Software Foundation, either version 3 of the License, or
//  (at your option) any later version.
//
//  Lectev is distributed in the hope that it will be useful,
//  but WITHOUT ANY WARRANTY; without even the implied warranty of
//  MERCHANTABILITY or FITNESS FOR A PARTICULAR PURPOSE.  See the
//  GNU General Public License for more details.
//
//  You should have received a copy of the GNU General Public License
//  along with Lectev.  If not, see <https://www.gnu.org/licenses/>.

use lectev::rest::{basic_auth, basic_auth_header};

#[test]
fn credentials_are_encoded_behind_the_word_basic() {
    assert_eq!(
        basic_auth(&"Aladdin".to_string(), &"open sesame".to_string()),
        Ok("Basic QWxhZGRpbjpvcGVuIHNlc2FtZQ==".to_string())
    );
    assert_eq!(
        basic_auth(&"user".to_string(), &"pass".to_string()),
        Ok("Basic dXNlcjpwYXNz".to_string())
    );
}

#[test]
fn empty_credentials_are_a_lone_colon() {
    assert_eq!(basic_auth(&String::new(), &String::new()), Ok("Basic Og==".to_string()));
}

#[test]
fn the_header_is_the_word_basic_and_the_encoding() {
    assert_eq!(basic_auth_header(&"abc".to_string()), "Basic abc");
    assert_eq!(basic_auth_header(&String::new()), "Basic ");
}
