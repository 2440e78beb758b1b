use vstd::prelude::*;
use vstd::slice::slice_subrange;
use vstd::string::*;
use crate::bytes::{ascii_to_lowercase, bytes_eq, lower};
use crate::sgml::{detect_uu, is_uu};

verus! {

/// Whether a character is alphanumeric in the sense of `char::is_alphanumeric`.
pub uninterp spec fn is_alphanumeric(c: char) -> bool;

/// Calls `char::is_alphanumeric`, which tells whether a character is alphabetic
/// or numeric by the Unicode tables. Claimed of it: the answer depends on the
/// character alone.
#[verifier::external_body]
fn char_is_alphanumeric(c: char) -> (r: bool)
    ensures
        r == is_alphanumeric(c),
{
    c.is_alphanumeric()
}

/// Calls `String::push`, which appends one character to a string. Claimed of
/// it: the string afterwards is the string before with the character at its end.
#[verifier::external_body]
fn push_char(s: &mut String, c: char)
    ensures
        final(s)@ == old(s)@.push(c),
{
    s.push(c)
}

/// The character that stands for `c` in a file name: `c` itself where it is
/// alphanumeric, a dot, a hyphen or an underscore; an underscore otherwise.
pub open spec fn safe_char_model(c: char, alphanumeric: bool) -> char {
    if alphanumeric || c == '.' || c == '-' || c == '_' {
        c
    } else {
        '_'
    }
}

/// The file name made from `name`, character by character.
pub open spec fn safe_name(name: Seq<char>) -> Seq<char> {
    Seq::new(name.len(), |i: int| safe_char_model(name[i], is_alphanumeric(name[i])))
}

/// Picks the character that stands for `c` in a file name, given whether `c`
/// is alphanumeric.
pub fn safe_char(c: char, alphanumeric: bool) -> (r: char)
    ensures
        r == safe_char_model(c, alphanumeric),
{
    if alphanumeric || c == '.' || c == '-' || c == '_' {
        c
    } else {
        '_'
    }
}

/// Makes a file name from a string: every character that is not alphanumeric,
/// a dot, a hyphen or an underscore becomes an underscore.
pub fn safe_filename(name: &str) -> (r: String)
    ensures
        r@ == safe_name(name@),
{
    let n = name.unicode_len();
    let mut out = String::new();
    let mut i: usize = 0;
    while i < n
        invariant
            i <= n,
            n == name@.len(),
            out@ == safe_name(name@).subrange(0, i as int),
        decreases n - i,
    {
        let c = name.get_char(i);
        let kept = safe_char(c, char_is_alphanumeric(c));
        push_char(&mut out, kept);
        assert(out@ =~= safe_name(name@).subrange(0, i + 1));
        i += 1;
    }
    assert(out@ =~= safe_name(name@));
    out
}

/// The character of a decimal digit.
pub open spec fn digit_char(d: int) -> char {
    if d == 0 {
        '0'
    } else if d == 1 {
        '1'
    } else if d == 2 {
        '2'
    } else if d == 3 {
        '3'
    } else if d == 4 {
        '4'
    } else if d == 5 {
        '5'
    } else if d == 6 {
        '6'
    } else if d == 7 {
        '7'
    } else if d == 8 {
        '8'
    } else {
        '9'
    }
}

/// The decimal digits of `n`, most significant first.
pub open spec fn decimal(n: nat) -> Seq<char>
    decreases n,
{
    if n < 10 {
        seq![digit_char(n as int)]
    } else {
        decimal(n / 10).push(digit_char((n % 10) as int))
    }
}

/// The character of the decimal digit `d`.
fn digit(d: usize) -> (r: char)
    requires
        d < 10,
    ensures
        r == digit_char(d as int),
{
    if d == 0 {
        '0'
    } else if d == 1 {
        '1'
    } else if d == 2 {
        '2'
    } else if d == 3 {
        '3'
    } else if d == 4 {
        '4'
    } else if d == 5 {
        '5'
    } else if d == 6 {
        '6'
    } else if d == 7 {
        '7'
    } else if d == 8 {
        '8'
    } else {
        '9'
    }
}

/// Appends the decimal digits of `n` to a string.
pub fn push_decimal(s: &mut String, n: usize)
    ensures
        final(s)@ == old(s)@ + decimal(n as nat),
    decreases n,
{
    if n < 10 {
        push_char(s, digit(n));
        assert(s@ =~= old(s)@ + decimal(n as nat));
    } else {
        push_decimal(s, n / 10);
        push_char(s, digit(n % 10));
        assert(s@ =~= old(s)@ + decimal(n as nat));
    }
}

/// The name given to document `index`, counted from zero, that brings none of
/// its own: `doc_`, the document's number counted from one, and `.bin` or `.txt`.
pub open spec fn default_name(index: nat, is_binary: bool) -> Seq<char> {
    "doc_"@ + decimal(index + 1) + if is_binary {
        ".bin"@
    } else {
        ".txt"@
    }
}

/// Names a document that brings no name of its own.
pub fn default_filename(index: usize, is_binary: bool) -> (r: String)
    requires
        index < usize::MAX,
    ensures
        r@ == default_name(index as nat, is_binary),
{
    let mut out = String::from_str("doc_");
    push_decimal(&mut out, index + 1);
    if is_binary {
        out.append(".bin");
    } else {
        out.append(".txt");
    }
    out
}

/// A document's content looks UU-encoded: its first ten bytes, or all of them
/// if it has fewer, announce a UU-encoded body.
pub open spec fn looks_encoded(content: Seq<u8>) -> bool {
    content.len() > 0 && is_uu(
        if content.len() > 10 {
            content.subrange(0, 10)
        } else {
            content
        },
    )
}

/// Tells whether a document's content still looks UU-encoded.
pub fn is_binary_content(content: &[u8]) -> (r: bool)
    ensures
        r == looks_encoded(content@),
{
    let n = content.len();
    if n == 0 {
        false
    } else if n > 10 {
        detect_uu(slice_subrange(content, 0, 10))
    } else {
        detect_uu(content)
    }
}

/// Tells whether the lowered bytes are the given word.
fn is_word(lowered: &[u8], word: Vec<u8>) -> (r: bool)
    ensures
        r == (lowered@ == word@),
{
    bytes_eq(lowered, word.as_slice())
}

/// The extension that a document type, in lower case, stands for.
pub open spec fn type_extension(lowered: Seq<u8>) -> Option<Seq<char>> {
    if lowered == seq![49u8, 48, 45, 107] {
        // `10-k`
        Some("txt"@)
    } else if lowered == seq![49u8, 48, 45, 113] {
        // `10-q`
        Some("txt"@)
    } else if lowered == seq![56u8, 45, 107] {
        // `8-k`
        Some("txt"@)
    } else if lowered == seq![104u8, 116, 109, 108] {
        // `html`
        Some("html"@)
    } else if lowered == seq![104u8, 116, 109] {
        // `htm`
        Some("html"@)
    } else if lowered == seq![120u8, 109, 108] {
        // `xml`
        Some("xml"@)
    } else if lowered == seq![112u8, 100, 102] {
        // `pdf`
        Some("pdf"@)
    } else if lowered == seq![120u8, 98, 114, 108] {
        // `xbrl`
        Some("xbrl"@)
    } else if lowered == seq![103u8, 114, 97, 112, 104, 105, 99] {
        // `graphic`
        Some("jpg"@)
    } else if lowered == seq![106u8, 112, 103] {
        // `jpg`
        Some("jpg"@)
    } else if lowered == seq![106u8, 112, 101, 103] {
        // `jpeg`
        Some("jpg"@)
    } else if lowered == seq![112u8, 110, 103] {
        // `png`
        Some("png"@)
    } else if lowered == seq![103u8, 105, 102] {
        // `gif`
        Some("gif"@)
    } else {
        None
    }
}

/// Looks up the extension that a document type stands for, whatever its case.
pub fn extension_for_type(doc_type: &[u8]) -> (r: Option<String>)
    ensures
        match r {
            Some(ext) => type_extension(lower(doc_type@)) == Some(ext@),
            None => type_extension(lower(doc_type@)) is None,
        },
{
    let buffer = ascii_to_lowercase(doc_type);
    let lowered = buffer.as_bytes();
    if is_word(lowered, vec![49u8, 48, 45, 107]) {
        Some(String::from_str("txt"))
    } else if is_word(lowered, vec![49u8, 48, 45, 113]) {
        Some(String::from_str("txt"))
    } else if is_word(lowered, vec![56u8, 45, 107]) {
        Some(String::from_str("txt"))
    } else if is_word(lowered, vec![104u8, 116, 109, 108]) {
        Some(String::from_str("html"))
    } else if is_word(lowered, vec![104u8, 116, 109]) {
        Some(String::from_str("html"))
    } else if is_word(lowered, vec![120u8, 109, 108]) {
        Some(String::from_str("xml"))
    } else if is_word(lowered, vec![112u8, 100, 102]) {
        Some(String::from_str("pdf"))
    } else if is_word(lowered, vec![120u8, 98, 114, 108]) {
        Some(String::from_str("xbrl"))
    } else if is_word(lowered, vec![103u8, 114, 97, 112, 104, 105, 99]) {
        Some(String::from_str("jpg"))
    } else if is_word(lowered, vec![106u8, 112, 103]) {
        Some(String::from_str("jpg"))
    } else if is_word(lowered, vec![106u8, 112, 101, 103]) {
        Some(String::from_str("jpg"))
    } else if is_word(lowered, vec![112u8, 110, 103]) {
        Some(String::from_str("png"))
    } else if is_word(lowered, vec![103u8, 105, 102]) {
        Some(String::from_str("gif"))
    } else {
        None
    }
}

/// The extension that a document format, in lower case, stands for.
pub open spec fn format_extension(lowered: Seq<u8>) -> Option<Seq<char>> {
    if lowered == seq![104u8, 116, 109, 108] {
        // `html`
        Some("html"@)
    } else if lowered == seq![104u8, 116, 109] {
        // `htm`
        Some("html"@)
    } else if lowered == seq![112u8, 100, 102] {
        // `pdf`
        Some("pdf"@)
    } else if lowered == seq![120u8, 109, 108] {
        // `xml`
        Some("xml"@)
    } else if lowered == seq![116u8, 101, 120, 116] {
        // `text`
        Some("txt"@)
    } else if lowered == seq![97u8, 115, 99, 105, 105] {
        // `ascii`
        Some("txt"@)
    } else if lowered == seq![106u8, 112, 103] {
        // `jpg`
        Some("jpg"@)
    } else if lowered == seq![106u8, 112, 101, 103] {
        // `jpeg`
        Some("jpg"@)
    } else if lowered == seq![112u8, 110, 103] {
        // `png`
        Some("png"@)
    } else if lowered == seq![103u8, 105, 102] {
        // `gif`
        Some("gif"@)
    } else {
        None
    }
}

/// Looks up the extension that a document format stands for, whatever its case.
pub fn extension_for_format(format: &[u8]) -> (r: Option<String>)
    ensures
        match r {
            Some(ext) => format_extension(lower(format@)) == Some(ext@),
            None => format_extension(lower(format@)) is None,
        },
{
    let buffer = ascii_to_lowercase(format);
    let lowered = buffer.as_bytes();
    if is_word(lowered, vec![104u8, 116, 109, 108]) {
        Some(String::from_str("html"))
    } else if is_word(lowered, vec![104u8, 116, 109]) {
        Some(String::from_str("html"))
    } else if is_word(lowered, vec![112u8, 100, 102]) {
        Some(String::from_str("pdf"))
    } else if is_word(lowered, vec![120u8, 109, 108]) {
        Some(String::from_str("xml"))
    } else if is_word(lowered, vec![116u8, 101, 120, 116]) {
        Some(String::from_str("txt"))
    } else if is_word(lowered, vec![97u8, 115, 99, 105, 105]) {
        Some(String::from_str("txt"))
    } else if is_word(lowered, vec![106u8, 112, 103]) {
        Some(String::from_str("jpg"))
    } else if is_word(lowered, vec![106u8, 112, 101, 103]) {
        Some(String::from_str("jpg"))
    } else if is_word(lowered, vec![112u8, 110, 103]) {
        Some(String::from_str("png"))
    } else if is_word(lowered, vec![103u8, 105, 102]) {
        Some(String::from_str("gif"))
    } else {
        None
    }
}

/// The extension of a file that is named after its document type, in lower case.
pub open spec fn named_type_extension(lowered: Seq<u8>) -> Option<Seq<char>> {
    if lowered == seq![49u8, 48, 45, 107] {
        // `10-k`
        Some("txt"@)
    } else if lowered == seq![49u8, 48, 45, 113] {
        // `10-q`
        Some("txt"@)
    } else if lowered == seq![56u8, 45, 107] {
        // `8-k`
        Some("txt"@)
    } else if lowered == seq![101u8, 120, 45, 49, 48, 49] {
        // `ex-101`
        Some("xml"@)
    } else if lowered == seq![103u8, 114, 97, 112, 104, 105, 99] {
        // `graphic`
        Some("jpg"@)
    } else {
        None
    }
}

/// Looks up the extension of a file that is named after its document type.
pub fn extension_for_named_type(doc_type: &[u8]) -> (r: Option<String>)
    ensures
        match r {
            Some(ext) => named_type_extension(lower(doc_type@)) == Some(ext@),
            None => named_type_extension(lower(doc_type@)) is None,
        },
{
    let buffer = ascii_to_lowercase(doc_type);
    let lowered = buffer.as_bytes();
    if is_word(lowered, vec![49u8, 48, 45, 107]) {
        Some(String::from_str("txt"))
    } else if is_word(lowered, vec![49u8, 48, 45, 113]) {
        Some(String::from_str("txt"))
    } else if is_word(lowered, vec![56u8, 45, 107]) {
        Some(String::from_str("txt"))
    } else if is_word(lowered, vec![101u8, 120, 45, 49, 48, 49]) {
        Some(String::from_str("xml"))
    } else if is_word(lowered, vec![103u8, 114, 97, 112, 104, 105, 99]) {
        Some(String::from_str("jpg"))
    } else {
        None
    }
}

/// The extension of a file that is named after its document type: the one the
/// type stands for, else `bin` for content that looks encoded and `txt` for any other.
pub open spec fn document_extension(lowered: Seq<u8>, is_binary: bool) -> Seq<char> {
    match named_type_extension(lowered) {
        Some(ext) => ext,
        None => if is_binary {
            "bin"@
        } else {
            "txt"@
        },
    }
}

/// Picks the extension of a file that is named after its document type.
pub fn extension_for_document(doc_type: &[u8], is_binary: bool) -> (r: String)
    ensures
        r@ == document_extension(lower(doc_type@), is_binary),
{
    match extension_for_named_type(doc_type) {
        Some(ext) => ext,
        None => if is_binary {
            String::from_str("bin")
        } else {
            String::from_str("txt")
        },
    }
}

} // verus!
