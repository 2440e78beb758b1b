use vstd::prelude::*;

verus! {

/// The tag that opens a document: the bytes of `<DOCUMENT>`.
pub open spec fn doc_open() -> Seq<u8> {
    seq![60u8, 68, 79, 67, 85, 77, 69, 78, 84, 62]
}

/// The bytes of `<DOCUMENT>`.
pub fn doc_open_bytes() -> (r: Vec<u8>)
    ensures
        r@ == doc_open(),
{
    let r: Vec<u8> = vec![60u8, 68, 79, 67, 85, 77, 69, 78, 84, 62];
    assert(r@ =~= doc_open());
    r
}

/// The tag that closes a document: the bytes of `</DOCUMENT>`.
pub open spec fn doc_close() -> Seq<u8> {
    seq![60u8, 47, 68, 79, 67, 85, 77, 69, 78, 84, 62]
}

/// The bytes of `</DOCUMENT>`.
pub fn doc_close_bytes() -> (r: Vec<u8>)
    ensures
        r@ == doc_close(),
{
    let r: Vec<u8> = vec![60u8, 47, 68, 79, 67, 85, 77, 69, 78, 84, 62];
    assert(r@ =~= doc_close());
    r
}

/// The tag that opens a document's text: the bytes of `<TEXT>`.
pub open spec fn text_open() -> Seq<u8> {
    seq![60u8, 84, 69, 88, 84, 62]
}

/// The bytes of `<TEXT>`.
pub fn text_open_bytes() -> (r: Vec<u8>)
    ensures
        r@ == text_open(),
{
    let r: Vec<u8> = vec![60u8, 84, 69, 88, 84, 62];
    assert(r@ =~= text_open());
    r
}

/// The tag that closes a document's text: the bytes of `</TEXT>`.
pub open spec fn text_close() -> Seq<u8> {
    seq![60u8, 47, 84, 69, 88, 84, 62]
}

/// The bytes of `</TEXT>`.
pub fn text_close_bytes() -> (r: Vec<u8>)
    ensures
        r@ == text_close(),
{
    let r: Vec<u8> = vec![60u8, 47, 84, 69, 88, 84, 62];
    assert(r@ =~= text_close());
    r
}

/// The marker of the dashed dialect: the bytes of `<SUBMISSION>`.
pub open spec fn submission_marker() -> Seq<u8> {
    seq![60u8, 83, 85, 66, 77, 73, 83, 83, 73, 79, 78, 62]
}

/// The bytes of `<SUBMISSION>`.
pub fn submission_marker_bytes() -> (r: Vec<u8>)
    ensures
        r@ == submission_marker(),
{
    let r: Vec<u8> = vec![60u8, 83, 85, 66, 77, 73, 83, 83, 73, 79, 78, 62];
    assert(r@ =~= submission_marker());
    r
}

/// The marker of the privacy-enhanced dialect: the bytes of `-----BEGIN PRIVACY-ENHANCED MESSAGE-----`.
pub open spec fn privacy_marker() -> Seq<u8> {
    seq![45u8, 45, 45, 45, 45, 66, 69, 71, 73, 78, 32, 80, 82, 73, 86, 65, 67, 89, 45, 69, 78, 72, 65, 78, 67, 69, 68, 32, 77, 69, 83, 83, 65, 71, 69, 45, 45, 45, 45, 45]
}

/// The bytes of `-----BEGIN PRIVACY-ENHANCED MESSAGE-----`.
pub fn privacy_marker_bytes() -> (r: Vec<u8>)
    ensures
        r@ == privacy_marker(),
{
    let r: Vec<u8> = vec![45u8, 45, 45, 45, 45, 66, 69, 71, 73, 78, 32, 80, 82, 73, 86, 65, 67, 89, 45, 69, 78, 72, 65, 78, 67, 69, 68, 32, 77, 69, 83, 83, 65, 71, 69, 45, 45, 45, 45, 45];
    assert(r@ =~= privacy_marker());
    r
}

/// The marker of the tab dialect: the bytes of `<SEC-DOCUMENT>`.
pub open spec fn sec_document_marker() -> Seq<u8> {
    seq![60u8, 83, 69, 67, 45, 68, 79, 67, 85, 77, 69, 78, 84, 62]
}

/// The bytes of `<SEC-DOCUMENT>`.
pub fn sec_document_marker_bytes() -> (r: Vec<u8>)
    ensures
        r@ == sec_document_marker(),
{
    let r: Vec<u8> = vec![60u8, 83, 69, 67, 45, 68, 79, 67, 85, 77, 69, 78, 84, 62];
    assert(r@ =~= sec_document_marker());
    r
}

/// The word that opens a UU-encoded body: the bytes of `begin`.
pub open spec fn begin_word() -> Seq<u8> {
    seq![98u8, 101, 103, 105, 110]
}

/// The bytes of `begin`.
pub fn begin_word_bytes() -> (r: Vec<u8>)
    ensures
        r@ == begin_word(),
{
    let r: Vec<u8> = vec![98u8, 101, 103, 105, 110];
    assert(r@ =~= begin_word());
    r
}

/// The word that closes a UU-encoded body: the bytes of `end`.
pub open spec fn end_word() -> Seq<u8> {
    seq![101u8, 110, 100]
}

/// The bytes of `end`.
pub fn end_word_bytes() -> (r: Vec<u8>)
    ensures
        r@ == end_word(),
{
    let r: Vec<u8> = vec![101u8, 110, 100];
    assert(r@ =~= end_word());
    r
}

/// The opening PDF wrapper: the bytes of `<PDF>`.
pub open spec fn pdf_open() -> Seq<u8> {
    seq![60u8, 80, 68, 70, 62]
}

/// The bytes of `<PDF>`.
pub fn pdf_open_bytes() -> (r: Vec<u8>)
    ensures
        r@ == pdf_open(),
{
    let r: Vec<u8> = vec![60u8, 80, 68, 70, 62];
    assert(r@ =~= pdf_open());
    r
}

/// The closing PDF wrapper: the bytes of `</PDF>`.
pub open spec fn pdf_close() -> Seq<u8> {
    seq![60u8, 47, 80, 68, 70, 62]
}

/// The bytes of `</PDF>`.
pub fn pdf_close_bytes() -> (r: Vec<u8>)
    ensures
        r@ == pdf_close(),
{
    let r: Vec<u8> = vec![60u8, 47, 80, 68, 70, 62];
    assert(r@ =~= pdf_close());
    r
}

/// The opening XBRL wrapper: the bytes of `<XBRL>`.
pub open spec fn xbrl_open() -> Seq<u8> {
    seq![60u8, 88, 66, 82, 76, 62]
}

/// The bytes of `<XBRL>`.
pub fn xbrl_open_bytes() -> (r: Vec<u8>)
    ensures
        r@ == xbrl_open(),
{
    let r: Vec<u8> = vec![60u8, 88, 66, 82, 76, 62];
    assert(r@ =~= xbrl_open());
    r
}

/// The closing XBRL wrapper: the bytes of `</XBRL>`.
pub open spec fn xbrl_close() -> Seq<u8> {
    seq![60u8, 47, 88, 66, 82, 76, 62]
}

/// The bytes of `</XBRL>`.
pub fn xbrl_close_bytes() -> (r: Vec<u8>)
    ensures
        r@ == xbrl_close(),
{
    let r: Vec<u8> = vec![60u8, 47, 88, 66, 82, 76, 62];
    assert(r@ =~= xbrl_close());
    r
}

/// The opening XML wrapper: the bytes of `<XML>`.
pub open spec fn xml_open() -> Seq<u8> {
    seq![60u8, 88, 77, 76, 62]
}

/// The bytes of `<XML>`.
pub fn xml_open_bytes() -> (r: Vec<u8>)
    ensures
        r@ == xml_open(),
{
    let r: Vec<u8> = vec![60u8, 88, 77, 76, 62];
    assert(r@ =~= xml_open());
    r
}

/// The closing XML wrapper: the bytes of `</XML>`.
pub open spec fn xml_close() -> Seq<u8> {
    seq![60u8, 47, 88, 77, 76, 62]
}

/// The bytes of `</XML>`.
pub fn xml_close_bytes() -> (r: Vec<u8>)
    ensures
        r@ == xml_close(),
{
    let r: Vec<u8> = vec![60u8, 47, 88, 77, 76, 62];
    assert(r@ =~= xml_close());
    r
}

/// The root key under which the privacy-enhanced preamble is stored: the bytes of `privacy-enhanced-message`.
pub open spec fn privacy_key() -> Seq<u8> {
    seq![112u8, 114, 105, 118, 97, 99, 121, 45, 101, 110, 104, 97, 110, 99, 101, 100, 45, 109, 101, 115, 115, 97, 103, 101]
}

/// The bytes of `privacy-enhanced-message`.
pub fn privacy_key_bytes() -> (r: Vec<u8>)
    ensures
        r@ == privacy_key(),
{
    let r: Vec<u8> = vec![112u8, 114, 105, 118, 97, 99, 121, 45, 101, 110, 104, 97, 110, 99, 101, 100, 45, 109, 101, 115, 115, 97, 103, 101];
    assert(r@ =~= privacy_key());
    r
}

/// The root key under which the per-document metadata is stored: the bytes of `documents`.
pub open spec fn documents_key() -> Seq<u8> {
    seq![100u8, 111, 99, 117, 109, 101, 110, 116, 115]
}

/// The bytes of `documents`.
pub fn documents_key_bytes() -> (r: Vec<u8>)
    ensures
        r@ == documents_key(),
{
    let r: Vec<u8> = vec![100u8, 111, 99, 117, 109, 101, 110, 116, 115];
    assert(r@ =~= documents_key());
    r
}

} // verus!
