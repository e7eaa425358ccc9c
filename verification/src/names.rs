use vstd::prelude::*;

verus! {

/// The bytes of the key `Type`.
pub open spec fn type_key() -> Seq<u8> {
    seq![84u8, 121u8, 112u8, 101u8]
}

/// The bytes of the key `Type`.
pub fn type_key_bytes() -> (k: Vec<u8>)
    ensures
        k@ == type_key(),
{
    let k = vec![84u8, 121u8, 112u8, 101u8];
    assert(k@ =~= type_key());
    k
}

/// The bytes of the word `Pages`, a key of the catalog and the type of a page tree.
pub open spec fn pages_key() -> Seq<u8> {
    seq![80u8, 97u8, 103u8, 101u8, 115u8]
}

/// The bytes of the word `Pages`, a key of the catalog and the type of a page tree.
pub fn pages_key_bytes() -> (k: Vec<u8>)
    ensures
        k@ == pages_key(),
{
    let k = vec![80u8, 97u8, 103u8, 101u8, 115u8];
    assert(k@ =~= pages_key());
    k
}

/// The bytes of the key `Kids`.
pub open spec fn kids_key() -> Seq<u8> {
    seq![75u8, 105u8, 100u8, 115u8]
}

/// The bytes of the key `Kids`.
pub fn kids_key_bytes() -> (k: Vec<u8>)
    ensures
        k@ == kids_key(),
{
    let k = vec![75u8, 105u8, 100u8, 115u8];
    assert(k@ =~= kids_key());
    k
}

/// The bytes of the key `Count`.
pub open spec fn count_key() -> Seq<u8> {
    seq![67u8, 111u8, 117u8, 110u8, 116u8]
}

/// The bytes of the key `Count`.
pub fn count_key_bytes() -> (k: Vec<u8>)
    ensures
        k@ == count_key(),
{
    let k = vec![67u8, 111u8, 117u8, 110u8, 116u8];
    assert(k@ =~= count_key());
    k
}

/// The bytes of the word `Catalog`, the type of a catalog.
pub open spec fn catalog_tag() -> Seq<u8> {
    seq![67u8, 97u8, 116u8, 97u8, 108u8, 111u8, 103u8]
}

/// The bytes of the word `Catalog`, the type of a catalog.
pub fn catalog_tag_bytes() -> (k: Vec<u8>)
    ensures
        k@ == catalog_tag(),
{
    let k = vec![67u8, 97u8, 116u8, 97u8, 108u8, 111u8, 103u8];
    assert(k@ =~= catalog_tag());
    k
}

/// The bytes of the trailer key `Root`.
pub open spec fn root_key() -> Seq<u8> {
    seq![82u8, 111u8, 111u8, 116u8]
}

/// The bytes of the trailer key `Root`.
pub fn root_key_bytes() -> (k: Vec<u8>)
    ensures
        k@ == root_key(),
{
    let k = vec![82u8, 111u8, 111u8, 116u8];
    assert(k@ =~= root_key());
    k
}

/// The bytes of the trailer key `ID`.
pub open spec fn id_key() -> Seq<u8> {
    seq![73u8, 68u8]
}

/// The bytes of the trailer key `ID`.
pub fn id_key_bytes() -> (k: Vec<u8>)
    ensures
        k@ == id_key(),
{
    let k = vec![73u8, 68u8];
    assert(k@ =~= id_key());
    k
}

/// The bytes of the trailer key `Encrypt`.
pub open spec fn encrypt_key() -> Seq<u8> {
    seq![69u8, 110u8, 99u8, 114u8, 121u8, 112u8, 116u8]
}

/// The bytes of the trailer key `Encrypt`.
pub fn encrypt_key_bytes() -> (k: Vec<u8>)
    ensures
        k@ == encrypt_key(),
{
    let k = vec![69u8, 110u8, 99u8, 114u8, 121u8, 112u8, 116u8];
    assert(k@ =~= encrypt_key());
    k
}

/// The bytes of the key `Filter`.
pub open spec fn filter_key() -> Seq<u8> {
    seq![70u8, 105u8, 108u8, 116u8, 101u8, 114u8]
}

/// The bytes of the key `Filter`.
pub fn filter_key_bytes() -> (k: Vec<u8>)
    ensures
        k@ == filter_key(),
{
    let k = vec![70u8, 105u8, 108u8, 116u8, 101u8, 114u8];
    assert(k@ =~= filter_key());
    k
}

/// The bytes of the key `DecodeParms`.
pub open spec fn decode_parms_key() -> Seq<u8> {
    seq![68u8, 101u8, 99u8, 111u8, 100u8, 101u8, 80u8, 97u8, 114u8, 109u8, 115u8]
}

/// The bytes of the key `DecodeParms`.
pub fn decode_parms_key_bytes() -> (k: Vec<u8>)
    ensures
        k@ == decode_parms_key(),
{
    let k = vec![68u8, 101u8, 99u8, 111u8, 100u8, 101u8, 80u8, 97u8, 114u8, 109u8, 115u8];
    assert(k@ =~= decode_parms_key());
    k
}

/// The bytes of the key `Length`, under which the dictionary of a stream
/// holds the length of the payload.
pub open spec fn length_key() -> Seq<u8> {
    seq![76u8, 101u8, 110u8, 103u8, 116u8, 104u8]
}

/// The bytes of the key `Length`.
pub fn length_key_bytes() -> (k: Vec<u8>)
    ensures
        k@ == length_key(),
{
    let k = vec![76u8, 101u8, 110u8, 103u8, 116u8, 104u8];
    assert(k@ =~= length_key());
    k
}

/// The bytes of the word `ObjStm`, the type of a stream that packs other
/// objects.
pub open spec fn object_stream_tag() -> Seq<u8> {
    seq![79u8, 98u8, 106u8, 83u8, 116u8, 109u8]
}

/// The bytes of the word `ObjStm`.
pub fn object_stream_tag_bytes() -> (k: Vec<u8>)
    ensures
        k@ == object_stream_tag(),
{
    let k = vec![79u8, 98u8, 106u8, 83u8, 116u8, 109u8];
    assert(k@ =~= object_stream_tag());
    k
}

/// The bytes of the filter name `ASCII85Decode`.
pub open spec fn ascii85_tag() -> Seq<u8> {
    seq![65u8, 83u8, 67u8, 73u8, 73u8, 56u8, 53u8, 68u8, 101u8, 99u8, 111u8, 100u8, 101u8]
}

/// The bytes of the filter name `ASCII85Decode`.
pub fn ascii85_tag_bytes() -> (k: Vec<u8>)
    ensures
        k@ == ascii85_tag(),
{
    let k = vec![65u8, 83u8, 67u8, 73u8, 73u8, 56u8, 53u8, 68u8, 101u8, 99u8, 111u8, 100u8, 101u8];
    assert(k@ =~= ascii85_tag());
    k
}

/// The bytes of the key `Predictor` of decoding parameters.
pub open spec fn predictor_key() -> Seq<u8> {
    seq![80u8, 114u8, 101u8, 100u8, 105u8, 99u8, 116u8, 111u8, 114u8]
}

/// The bytes of the key `Predictor`.
pub fn predictor_key_bytes() -> (k: Vec<u8>)
    ensures
        k@ == predictor_key(),
{
    let k = vec![80u8, 114u8, 101u8, 100u8, 105u8, 99u8, 116u8, 111u8, 114u8];
    assert(k@ =~= predictor_key());
    k
}

/// The bytes of the key `Columns` of decoding parameters.
pub open spec fn columns_key() -> Seq<u8> {
    seq![67u8, 111u8, 108u8, 117u8, 109u8, 110u8, 115u8]
}

/// The bytes of the key `Columns`.
pub fn columns_key_bytes() -> (k: Vec<u8>)
    ensures
        k@ == columns_key(),
{
    let k = vec![67u8, 111u8, 108u8, 117u8, 109u8, 110u8, 115u8];
    assert(k@ =~= columns_key());
    k
}

/// The bytes of the key `Colors` of decoding parameters.
pub open spec fn colors_key() -> Seq<u8> {
    seq![67u8, 111u8, 108u8, 111u8, 114u8, 115u8]
}

/// The bytes of the key `Colors`.
pub fn colors_key_bytes() -> (k: Vec<u8>)
    ensures
        k@ == colors_key(),
{
    let k = vec![67u8, 111u8, 108u8, 111u8, 114u8, 115u8];
    assert(k@ =~= colors_key());
    k
}

/// The bytes of the key `BitsPerComponent` of decoding parameters.
pub open spec fn bits_key() -> Seq<u8> {
    seq![66u8, 105u8, 116u8, 115u8, 80u8, 101u8, 114u8, 67u8, 111u8, 109u8, 112u8, 111u8, 110u8, 101u8, 110u8, 116u8]
}

/// The bytes of the key `BitsPerComponent`.
pub fn bits_key_bytes() -> (k: Vec<u8>)
    ensures
        k@ == bits_key(),
{
    let k = vec![66u8, 105u8, 116u8, 115u8, 80u8, 101u8, 114u8, 67u8, 111u8, 109u8, 112u8, 111u8, 110u8, 101u8, 110u8, 116u8];
    assert(k@ =~= bits_key());
    k
}

/// The bytes of the key `V`, under which an encryption dictionary names the
/// version of its algorithm.
pub open spec fn version_key() -> Seq<u8> {
    seq![86u8]
}

/// The bytes of the key `V`.
pub fn version_key_bytes() -> (k: Vec<u8>)
    ensures
        k@ == version_key(),
{
    let k = vec![86u8];
    assert(k@ =~= version_key());
    k
}

/// The bytes of the key `CF`, under which an encryption dictionary holds its
/// crypt filters by name.
pub open spec fn crypt_filters_key() -> Seq<u8> {
    seq![67u8, 70u8]
}

/// The bytes of the key `CF`.
pub fn crypt_filters_key_bytes() -> (k: Vec<u8>)
    ensures
        k@ == crypt_filters_key(),
{
    let k = vec![67u8, 70u8];
    assert(k@ =~= crypt_filters_key());
    k
}

/// The bytes of the key `CFM`, under which a crypt filter names its method.
pub open spec fn method_key() -> Seq<u8> {
    seq![67u8, 70u8, 77u8]
}

/// The bytes of the key `CFM`.
pub fn method_key_bytes() -> (k: Vec<u8>)
    ensures
        k@ == method_key(),
{
    let k = vec![67u8, 70u8, 77u8];
    assert(k@ =~= method_key());
    k
}

/// The bytes of the key `StmF`, under which an encryption dictionary names
/// the crypt filter of streams.
pub open spec fn stream_filter_key() -> Seq<u8> {
    seq![83u8, 116u8, 109u8, 70u8]
}

/// The bytes of the key `StmF`.
pub fn stream_filter_key_bytes() -> (k: Vec<u8>)
    ensures
        k@ == stream_filter_key(),
{
    let k = vec![83u8, 116u8, 109u8, 70u8];
    assert(k@ =~= stream_filter_key());
    k
}

/// The bytes of the key `StrF`, under which an encryption dictionary names
/// the crypt filter of strings.
pub open spec fn string_filter_key() -> Seq<u8> {
    seq![83u8, 116u8, 114u8, 70u8]
}

/// The bytes of the key `StrF`.
pub fn string_filter_key_bytes() -> (k: Vec<u8>)
    ensures
        k@ == string_filter_key(),
{
    let k = vec![83u8, 116u8, 114u8, 70u8];
    assert(k@ =~= string_filter_key());
    k
}

/// The bytes of the method name `AESV2`: AES with a 128-bit key.
pub open spec fn aes128_method() -> Seq<u8> {
    seq![65u8, 69u8, 83u8, 86u8, 50u8]
}

/// The bytes of the method name `AESV2`.
pub fn aes128_method_bytes() -> (k: Vec<u8>)
    ensures
        k@ == aes128_method(),
{
    let k = vec![65u8, 69u8, 83u8, 86u8, 50u8];
    assert(k@ =~= aes128_method());
    k
}

/// The bytes of the key `EncryptMetadata`, under which an encryption
/// dictionary says whether metadata is encrypted.
pub open spec fn encrypt_metadata_key() -> Seq<u8> {
    seq![69u8, 110u8, 99u8, 114u8, 121u8, 112u8, 116u8, 77u8, 101u8, 116u8, 97u8, 100u8, 97u8, 116u8, 97u8]
}

/// The bytes of the key `EncryptMetadata`.
pub fn encrypt_metadata_key_bytes() -> (k: Vec<u8>)
    ensures
        k@ == encrypt_metadata_key(),
{
    let k = vec![69u8, 110u8, 99u8, 114u8, 121u8, 112u8, 116u8, 77u8, 101u8, 116u8, 97u8, 100u8, 97u8, 116u8, 97u8];
    assert(k@ =~= encrypt_metadata_key());
    k
}

} // verus!
