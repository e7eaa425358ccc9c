use base64::Engine;
use vstd::prelude::*;
use vstd::string::*;

verus! {

/// The standard base64 text of some bytes, with padding.
pub uninterp spec fn base64_standard(data: Seq<u8>) -> Seq<char>;

/// Whether bytes of this number can be encoded: the length of their base64
/// text must fit into `usize`.
pub open spec fn encodable(n: nat) -> bool {
    n / 3 < usize::MAX / 4
}

/// `base64::engine::general_purpose::STANDARD.encode` gives the base64 text
/// of the bytes, which the contract names. The call panics where the length
/// of the text does not fit into `usize`.
#[verifier::external_body]
fn encode_base64(buffer: &[u8]) -> (text: String)
    requires
        encodable(buffer@.len()),
    ensures
        text@ == base64_standard(buffer@),
{
    base64::engine::general_purpose::STANDARD.encode(buffer)
}

/// What stands before the base64 text in a data URL of a picture.
pub open spec fn data_url_prefix() -> Seq<char> {
    "data:image/webp;base64,"@
}

/// The data URL of an encoded picture.
pub fn gen_data_url_from_buffer(buffer: &[u8]) -> (url: String)
    requires
        encodable(buffer@.len()),
    ensures
        url@ == data_url_prefix() + base64_standard(buffer@),
{
    let encoded = encode_base64(buffer);
    String::from_str("data:image/webp;base64,").concat(encoded.as_str())
}

} // verus!
