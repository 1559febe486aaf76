//! The transport layer: the structured text of a collection, carried
//! through UTF-8 bytes and a base64 text-safe transform, so the stored
//! file is plain text whatever the records hold.

use vstd::prelude::*;

use vstd::string::StrSliceExecFns;
use vstd::utf8::{decode_utf8, encode_utf8, valid_utf8};

use crate::codec::{encode_records, json_of};
use crate::decode::parse_records;
use crate::record::{Todo, TodoView, views};

verus! {

/// The text that the base64 transform writes for given bytes.
pub uninterp spec fn b64_of(b: Seq<u8>) -> Seq<char>;

/// What the base64 transform reads back from given text, when it
/// accepts the text at all.
pub uninterp spec fn b64_dec_of(s: Seq<char>) -> Option<Seq<u8>>;

/// Relies on `base64::encode` (standard alphabet, padded): the result
/// is a pure function of the input bytes.
#[verifier::external_body]
fn b64_encode(b: &Vec<u8>) -> (r: String)
    ensures
        r@ == b64_of(b@),
{
    base64::encode(b)
}

/// Relies on `base64::decode` (standard alphabet): what it returns is a
/// pure function of the input text, and decoding reverses encoding, so
/// text that `base64::encode` produced comes back as the original bytes.
#[verifier::external_body]
fn b64_decode(s: &str) -> (r: Option<Vec<u8>>)
    ensures
        r matches Some(d) ==> b64_dec_of(s@) == Some(d@),
        r is None ==> b64_dec_of(s@) is None,
        r is None ==> (forall|b: Seq<u8>| s@ != b64_of(b)),
        r matches Some(d) ==> (forall|b: Seq<u8>| s@ == b64_of(b) ==> d@ == b),
{
    base64::decode(s).ok()
}

/// Relies on `String::from_utf8`: it succeeds exactly on valid UTF-8,
/// and the returned string's byte encoding is the input.
#[verifier::external_body]
fn string_from_utf8(v: Vec<u8>) -> (r: Option<String>)
    ensures
        r is Some <==> valid_utf8(v@),
        r matches Some(s2) ==> encode_utf8(s2@) == v@,
{
    String::from_utf8(v).ok()
}

/// Relies on chrono's `Local::now`, formatted `YYYY-MM-DD HH:MM:SS`:
/// the current local time, read from the system clock, so nothing is
/// promised of the value.
#[verifier::external_body]
pub fn now_timestamp() -> String {
    chrono::Local::now().format("%Y-%m-%d %H:%M:%S").to_string()
}

/// The stored text of a collection: its structured text, as UTF-8
/// bytes, through the base64 transform.
pub open spec fn blob_of(c: Seq<TodoView>) -> Seq<char> {
    b64_of(encode_utf8(json_of(c)))
}

/// Encodes the whole collection into its stored text.
pub fn encode_blob(todos: &Vec<Todo>) -> (r: String)
    ensures
        r@ == blob_of(views(todos@)),
{
    let json = encode_records(todos);
    let bytes = json.as_str().as_bytes_vec();
    b64_encode(&bytes)
}

/// Decodes a stored text back into a collection. Decoding reverses
/// encoding exactly: on the stored text of any collection it returns
/// that collection; and whatever it accepts, the decoded bytes hold the
/// canonical structured text of the result.
pub fn decode_blob(s: &str) -> (r: Option<Vec<Todo>>)
    ensures
        r matches Some(v) ==> (b64_dec_of(s@) matches Some(b) && valid_utf8(b) && decode_utf8(b)
            == json_of(views(v@))),
        forall|c: Seq<TodoView>| s@ == blob_of(c) ==> (r matches Some(v2) && views(v2@) == c),
{
    let bytes_res = b64_decode(s);
    if bytes_res.is_none() {
        proof {
            assert forall|c: Seq<TodoView>| s@ != blob_of(c) by {
                if s@ == blob_of(c) {
                    assert(s@ == b64_of(encode_utf8(json_of(c))));
                }
            }
        }
        return None;
    }
    let bytes = bytes_res.unwrap();
    let ghost bts = bytes@;
    let text_res = string_from_utf8(bytes);
    if text_res.is_none() {
        proof {
            assert forall|c: Seq<TodoView>| s@ != blob_of(c) by {
                if s@ == blob_of(c) {
                    assert(s@ == b64_of(encode_utf8(json_of(c))));
                    assert(bts == encode_utf8(json_of(c)));
                    vstd::utf8::encode_utf8_valid_utf8(json_of(c));
                }
            }
        }
        return None;
    }
    let text = text_res.unwrap();
    let parse_res = parse_records(text.as_str());
    match parse_res {
        Some(v) => {
            proof {
                assert(encode_utf8(text@) == bts);
                assert(text@ == json_of(views(v@)));
                vstd::utf8::encode_utf8_decode_utf8(text@);
                assert(decode_utf8(bts) == text@);
                assert forall|c: Seq<TodoView>| s@ == blob_of(c) implies views(v@) == c by {
                    assert(s@ == b64_of(encode_utf8(json_of(c))));
                    assert(bts == encode_utf8(json_of(c)));
                    vstd::utf8::encode_utf8_decode_utf8(json_of(c));
                    assert(decode_utf8(bts) == json_of(c));
                    assert(text@ == json_of(c));
                }
            }
            Some(v)
        },
        None => {
            proof {
                assert forall|c: Seq<TodoView>| s@ != blob_of(c) by {
                    if s@ == blob_of(c) {
                        assert(s@ == b64_of(encode_utf8(json_of(c))));
                        assert(bts == encode_utf8(json_of(c)));
                        vstd::utf8::encode_utf8_decode_utf8(json_of(c));
                        assert(encode_utf8(text@) == bts);
                        vstd::utf8::encode_utf8_decode_utf8(text@);
                        assert(text@ == json_of(c));
                    }
                }
            }
            None
        },
    }
}

/// Loads a collection from a stored text, treating anything that does
/// not decode as no prior data: the silent-default policy of the store.
pub fn load_from_text(s: &str) -> (r: Vec<Todo>)
    ensures
        forall|c: Seq<TodoView>| s@ == blob_of(c) ==> views(r@) == c,
        views(r@).len() == 0 || (b64_dec_of(s@) matches Some(b) && valid_utf8(b) && decode_utf8(b)
            == json_of(views(r@))),
{
    let res = decode_blob(s);
    match res {
        Some(v) => v,
        None => {
            let v: Vec<Todo> = Vec::new();
            proof {
                assert(views(v@) =~= Seq::<TodoView>::empty());
            }
            v
        },
    }
}

} // verus!
