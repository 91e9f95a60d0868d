//! What a giver is shown: the names of the receivers in one line, in a
//! form that does not give them away at a glance.
use base64::engine::general_purpose::STANDARD;
use base64::Engine;
use vstd::prelude::*;
use vstd::string::*;
use vstd::utf8::encode_utf8;

verus! {

/// The names in one line, each two separated by a comma and a space.
pub open spec fn joined(names: Seq<String>) -> Seq<char>
    decreases names.len(),
{
    if names.len() == 0 {
        Seq::empty()
    } else if names.len() == 1 {
        names[0]@
    } else {
        joined(names.drop_last()) + ", "@ + names.last()@
    }
}

/// The names in one line, each two separated by a comma and a space.
pub fn join_names(names: &Vec<String>) -> (line: String)
    ensures
        line@ == joined(names@),
{
    let mut line = String::new();
    let mut k: usize = 0;
    while k < names.len()
        invariant
            k <= names@.len(),
            line@ == joined(names@.take(k as int)),
        decreases names@.len() - k,
    {
        proof {
            let upto = names@.take(k + 1);
            assert(upto.drop_last() =~= names@.take(k as int));
        }
        if k > 0 {
            line.append(", ");
        }
        line.append(names[k].as_str());
        k += 1;
    }
    assert(names@.take(k as int) =~= names@);
    line
}

/// The base64 text, standard alphabet with padding, that stands for
/// `bytes`.
pub uninterp spec fn base64_standard(bytes: Seq<u8>) -> Seq<char>;

/// Whether the base64 text for `len` bytes has a length that a machine
/// word can hold: four characters for every three bytes begun.
pub open spec fn fits_base64(len: nat) -> bool {
    4 * ((len + 2) / 3) <= usize::MAX
}

/// The base64 text of `text`.
///
/// Trusted: the body calls `base64::Engine::encode` on
/// `base64::engine::general_purpose::STANDARD` with the bytes of `text`. The
/// result of that call is given the name `base64_standard`: it depends on
/// the bytes alone. The call panics where the length of the result does not
/// fit a `usize`; `requires` leaves those inputs out.
#[verifier::external_body]
fn encode_standard(text: &str) -> (encoded: String)
    requires
        fits_base64(text.spec_bytes().len()),
    ensures
        encoded@ == base64_standard(text.spec_bytes()),
{
    STANDARD.encode(text)
}

/// The names in one line, as base64 text. There is no such text where it
/// would be longer than a machine word can count.
pub fn encode_names(names: &Vec<String>) -> (encoded: Option<String>)
    ensures
        match encoded {
            Some(text) => {
                &&& fits_base64(encode_utf8(joined(names@)).len())
                &&& text@ == base64_standard(encode_utf8(joined(names@)))
            },
            None => !fits_base64(encode_utf8(joined(names@)).len()),
        },
{
    let line = join_names(names);
    let len = line.as_str().as_bytes().len();
    let begun = len / 3 + if len % 3 > 0 {
        1
    } else {
        0
    };
    if begun <= usize::MAX / 4 {
        Some(encode_standard(line.as_str()))
    } else {
        None
    }
}

} // verus!
