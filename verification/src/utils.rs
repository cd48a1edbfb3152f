//! Validation of market identifiers.

use vstd::prelude::*;
use vstd::string::{StrSliceExecFns, StringExecFns};
use vstd::utf8::encode_utf8;

verus! {

/// Whether `uuid::Uuid::parse_str` accepts the text.
pub uninterp spec fn uuid_parses(text: Seq<char>) -> bool;

/// `uuid::Uuid::parse_str`: tells whether the text is one of the forms of a
/// UUID that the parser accepts.
#[verifier::external_body]
fn parses_as_uuid(text: &str) -> (ok: bool)
    ensures
        ok == uuid_parses(text@),
{
    uuid::Uuid::parse_str(text).is_ok()
}

/// The text holds a colon at `k` and nowhere else.
pub open spec fn single_colon_at(text: Seq<char>, k: int) -> bool {
    &&& 0 <= k < text.len()
    &&& text[k] == ':'
    &&& forall|j: int| 0 <= j < text.len() && j != k ==> text[j] != ':'
}

/// One of the three network names, in lower case.
pub open spec fn is_network(name: Seq<char>) -> bool {
    name == "previewnet"@ || name == "testnet"@ || name == "mainnet"@
}

/// The text is a network name, a colon at `k`, and 36 bytes after it.
pub open spec fn poly_id_splits_at(text: Seq<char>, k: int) -> bool {
    &&& single_colon_at(text, k)
    &&& is_network(text.subrange(0, k))
    &&& encode_utf8(text.subrange(k + 1, text.len() as int)).len() == 36
}

/// The form of a market identifier: `<previewnet|testnet|mainnet>:<UUID>`,
/// the UUID written in 36 bytes that parse as one.
pub open spec fn poly_id_model(text: Seq<char>) -> bool {
    exists|k: int|
        poly_id_splits_at(text, k) && uuid_parses(text.subrange(k + 1, text.len() as int))
}

/// The part of the identifier that has to be a UUID: what follows the colon,
/// where the identifier is a network name, one colon and 36 bytes. `None`
/// where it is anything else.
pub fn uuid_part(poly_id: &str) -> (part: Option<&str>)
    ensures
        part is Some <==> exists|k: int| poly_id_splits_at(poly_id@, k),
        part matches Some(uuid) ==> exists|k: int|
            poly_id_splits_at(poly_id@, k) && uuid@ == poly_id@.subrange(
                k + 1,
                poly_id@.len() as int,
            ),
{
    let text = poly_id;
    let n = text.unicode_len();
    let mut colons: usize = 0;
    let mut at: usize = 0;
    let mut i: usize = 0;
    for c in it: text.chars()
        invariant
            it.seq() == text@,
            n == text@.len(),
            i == it.index(),
            colons <= 2,
            colons == 0 ==> forall|j: int| 0 <= j < i ==> text@[j] != ':',
            colons == 1 ==> at < i && text@[at as int] == ':' && forall|j: int|
                0 <= j < i && j != at ==> text@[j] != ':',
            colons == 2 ==> exists|j1: int, j2: int|
                0 <= j1 < j2 < i && text@[j1] == ':' && text@[j2] == ':',
    {
        if c == ':' {
            if colons == 0 {
                at = i;
                colons = 1;
            } else if colons == 1 {
                assert(text@[at as int] == ':' && text@[i as int] == ':');
                colons = 2;
            }
        }
        i = i + 1;
    }
    if colons != 1 {
        proof {
            assert forall|k: int| !poly_id_splits_at(text@, k) by {
                if colons == 2 {
                    let (j1, j2) = choose|j1: int, j2: int|
                        0 <= j1 < j2 < i && text@[j1] == ':' && text@[j2] == ':';
                    assert(!single_colon_at(text@, k));
                }
            }
        }
        return None;
    }
    proof {
        assert(single_colon_at(text@, at as int));
        assert forall|k: int| poly_id_splits_at(text@, k) implies k == at by {}
    }
    let network = String::from_str(text.substring_char(0, at));
    let uuid = text.substring_char(at + 1, n);
    if !(network == String::from_str("previewnet") || network == String::from_str("testnet")
        || network == String::from_str("mainnet")) {
        return None;
    }
    if uuid.as_bytes().len() != 36 {
        return None;
    }
    assert(poly_id_splits_at(text@, at as int));
    Some(uuid)
}

/// Tells whether the identifier has the form
/// `<previewnet|testnet|mainnet>:<UUID>`, the UUID written in 36 bytes.
pub fn is_valid_poly_id(poly_id: String) -> (ok: bool)
    ensures
        ok == poly_id_model(poly_id@),
{
    match uuid_part(poly_id.as_str()) {
        Some(uuid) => {
            let ok = parses_as_uuid(uuid);
            proof {
                let k = choose|k: int|
                    poly_id_splits_at(poly_id@, k) && uuid@ == poly_id@.subrange(
                        k + 1,
                        poly_id@.len() as int,
                    );
                assert forall|j: int| poly_id_splits_at(poly_id@, j) implies j == k by {}
            }
            ok
        },
        None => false,
    }
}

} // verus!
