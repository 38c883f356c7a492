//! What a Flashblocks frame looks like, for a person who decodes against the format in use: its
//! top-level keys, its index and block, whether it carries receipts, how many transactions.
use crate::live::base::flashblocks::{
    inflate, inflated, json_at, opens_object, read_json, scalar_view, starts_object, utf8_text,
    Scalar, ScalarView,
};
use vstd::prelude::*;
use vstd::utf8::{decode_utf8, encode_utf8, is_char_boundary, valid_utf8};

verus! {

/// A text, if there is one, by its contents.
pub open spec fn text_view(s: Option<String>) -> Option<Seq<char>> {
    match s {
        Some(s) => Some(s@),
        None => None,
    }
}

/// Owned texts by their contents.
pub open spec fn words(v: Seq<String>) -> Seq<Seq<char>> {
    v.map_values(|s: String| s@)
}

/// Texts, if there are any, by their contents.
pub open spec fn words_view(v: Option<Vec<String>>) -> Option<Seq<Seq<char>>> {
    match v {
        Some(v) => Some(words(v@)),
        None => None,
    }
}

/// The text of bytes with U+FFFD in place of what is no UTF-8.
pub uninterp spec fn lossy_text(bytes: Seq<u8>) -> Seq<char>;

/// What is wrong with a text that is no JSON, in words; nothing where it is JSON.
pub uninterp spec fn json_fault(text: Seq<char>) -> Option<Seq<char>>;

/// The keys of the JSON object that a text spells; nothing where it spells none.
pub uninterp spec fn json_keys(text: Seq<char>) -> Option<Seq<Seq<char>>>;

/// The length of the array that a JSON text holds in the place that a JSON Pointer names; nothing
/// where it holds none there.
pub uninterp spec fn json_length(text: Seq<char>, pointer: Seq<char>) -> Option<usize>;

/// The indented form of a JSON text; nothing where it is no JSON.
pub uninterp spec fn json_pretty(text: Seq<char>) -> Option<Seq<char>>;

/// [`String::from_utf8_lossy`]: the text of UTF-8 bytes, and of other bytes a text with
/// replacement characters in it.
#[verifier::external_body]
fn lossy(bytes: &[u8]) -> (r: String)
    ensures
        r@ == lossy_text(bytes@),
        valid_utf8(bytes@) ==> r@ == decode_utf8(bytes@),
{
    String::from_utf8_lossy(bytes).into_owned()
}

/// `serde_json::from_str` into a `serde_json::Value`: the text of its error, if it gives one.
/// Nothing is claimed of the grammar or the words but that they depend on the text alone.
#[verifier::external_body]
fn parse_fault(text: &str) -> (r: Option<String>)
    ensures
        text_view(r) == json_fault(text@),
{
    serde_json::from_str::<serde_json::Value>(text).err().map(|e| e.to_string())
}

/// `serde_json::from_str` into a `serde_json::Value`, `Value::as_object` and `Map::keys`. Nothing
/// is claimed of the keys but that they, and their order, depend on the text alone.
#[verifier::external_body]
fn object_keys(text: &str) -> (r: Option<Vec<String>>)
    ensures
        words_view(r) == json_keys(text@),
{
    let document: serde_json::Value = serde_json::from_str(text).ok()?;
    Some(document.as_object()?.keys().cloned().collect())
}

/// `serde_json::from_str` into a `serde_json::Value`, `Value::pointer` and `Value::as_array`: the
/// length of the array. Nothing is claimed of it but that it depends on the text and the pointer
/// alone.
#[verifier::external_body]
fn array_length(text: &str, pointer: &str) -> (r: Option<usize>)
    ensures
        r == json_length(text@, pointer@),
{
    let document: serde_json::Value = serde_json::from_str(text).ok()?;
    Some(document.pointer(pointer)?.as_array()?.len())
}

/// `serde_json::from_str` into a `serde_json::Value` and `serde_json::to_string_pretty` of it.
/// Nothing is claimed of the text but that it depends on the text read alone.
#[verifier::external_body]
fn indented(text: &str) -> (r: Option<String>)
    ensures
        text_view(r) == json_pretty(text@),
{
    let document: serde_json::Value = serde_json::from_str(text).ok()?;
    serde_json::to_string_pretty(&document).ok()
}

/// What a frame's text was found to hold.
#[derive(Debug)]
pub struct Findings {
    /// What is wrong with the JSON.
    pub fault: Option<String>,
    /// The top-level keys, where the document is an object.
    pub keys: Option<Vec<String>>,
    /// What stands in `index`.
    pub index: Option<Scalar>,
    /// What stands in `metadata.block_number`.
    pub metadata_block: Option<Scalar>,
    /// What stands in `diff.block_number`.
    pub diff_block: Option<Scalar>,
    /// What stands in `metadata.receipts`.
    pub receipts: Option<Scalar>,
    /// The length of `diff.transactions`.
    pub transactions: Option<usize>,
    /// The document, indented.
    pub pretty: Option<String>,
}

/// [`Findings`] by their contents.
pub struct FindingsView {
    pub fault: Option<Seq<char>>,
    pub keys: Option<Seq<Seq<char>>>,
    pub index: Option<ScalarView>,
    pub metadata_block: Option<ScalarView>,
    pub diff_block: Option<ScalarView>,
    pub receipts: Option<ScalarView>,
    pub transactions: Option<usize>,
    pub pretty: Option<Seq<char>>,
}

impl View for Findings {
    type V = FindingsView;

    open spec fn view(&self) -> FindingsView {
        FindingsView {
            fault: text_view(self.fault),
            keys: words_view(self.keys),
            index: scalar_view(self.index),
            metadata_block: scalar_view(self.metadata_block),
            diff_block: scalar_view(self.diff_block),
            receipts: scalar_view(self.receipts),
            transactions: self.transactions,
            pretty: text_view(self.pretty),
        }
    }
}

/// What there is to say of a frame.
#[derive(Debug, PartialEq, Eq)]
pub enum FrameReport {
    /// Neither a JSON object nor a brotli stream: the number of bytes, and the first sixteen.
    Undecodable { len: usize, first: Vec<u8> },
    /// No JSON: the number of the text's bytes, and what is wrong.
    BadJson { len: usize, error: String },
    /// A frame.
    Frame {
        keys: Vec<String>,
        index: Option<u64>,
        block: Option<u64>,
        receipts: bool,
        txs: Option<usize>,
        pretty: String,
    },
}

/// A [`FrameReport`] by its contents.
pub enum ReportView {
    Undecodable { len: int, first: Seq<u8> },
    BadJson { len: int, error: Seq<char> },
    Frame {
        keys: Seq<Seq<char>>,
        index: Option<u64>,
        block: Option<u64>,
        receipts: bool,
        txs: Option<usize>,
        pretty: Seq<char>,
    },
}

impl FrameReport {
    /// The report in mathematical terms.
    pub open spec fn model(self) -> ReportView {
        match self {
            FrameReport::Undecodable { len, first } => ReportView::Undecodable {
                len: len as int,
                first: first@,
            },
            FrameReport::BadJson { len, error } => ReportView::BadJson {
                len: len as int,
                error: error@,
            },
            FrameReport::Frame { keys, index, block, receipts, txs, pretty } => ReportView::Frame {
                keys: words(keys@),
                index,
                block,
                receipts,
                txs,
                pretty: pretty@,
            },
        }
    }
}

/// The integer in a place, if one stands there.
pub open spec fn whole(s: Option<ScalarView>) -> Option<u64> {
    match s {
        Some(ScalarView::Whole(n)) => Some(n),
        _ => None,
    }
}

/// The text of a frame, for looking at: the bytes themselves where they spell a JSON object,
/// otherwise what they decompress to, whether or not that is UTF-8.
pub open spec fn shown_text(bytes: Seq<u8>, plain: Option<Seq<u8>>) -> Option<Seq<char>> {
    if valid_utf8(bytes) && opens_object(decode_utf8(bytes)) {
        Some(decode_utf8(bytes))
    } else {
        match plain {
            Some(plain) => Some(lossy_text(plain)),
            None => None,
        }
    }
}

/// What the document behind a text holds in the places of interest.
pub open spec fn findings_in(text: Seq<char>) -> FindingsView {
    FindingsView {
        fault: json_fault(text),
        keys: json_keys(text),
        index: json_at(text, "/index"@),
        metadata_block: json_at(text, "/metadata/block_number"@),
        diff_block: json_at(text, "/diff/block_number"@),
        receipts: json_at(text, "/metadata/receipts"@),
        transactions: json_length(text, "/diff/transactions"@),
        pretty: json_pretty(text),
    }
}

/// The report on a text: its fault, or what was found in it. The block is the metadata's, or else
/// the diff's; the text itself stands where it has no indented form.
pub open spec fn text_report(text: Seq<char>, found: FindingsView) -> ReportView {
    match found.fault {
        Some(error) => ReportView::BadJson { len: encode_utf8(text).len() as int, error },
        None => ReportView::Frame {
            keys: match found.keys {
                Some(keys) => keys,
                None => Seq::empty(),
            },
            index: whole(found.index),
            block: match whole(found.metadata_block) {
                Some(block) => Some(block),
                None => whole(found.diff_block),
            },
            receipts: found.receipts is Some,
            txs: found.transactions,
            pretty: match found.pretty {
                Some(pretty) => pretty,
                None => text,
            },
        },
    }
}

/// The report on a frame that decompresses to `plain`.
pub open spec fn frame_report(bytes: Seq<u8>, plain: Option<Seq<u8>>) -> ReportView {
    match shown_text(bytes, plain) {
        Some(text) => text_report(text, findings_in(text)),
        None => ReportView::Undecodable {
            len: bytes.len() as int,
            first: bytes.take(
                if bytes.len() < 16 {
                    bytes.len() as int
                } else {
                    16
                },
            ),
        },
    }
}

/// The integer in a place, if one stands there.
fn whole_of(s: &Option<Scalar>) -> (r: Option<u64>)
    ensures
        r == whole(scalar_view(*s)),
{
    match s {
        Some(Scalar::Whole(n)) => Some(*n),
        _ => None,
    }
}

/// The report on a text, from what was found in it.
pub fn report_text(text: &str, found: Findings) -> (r: FrameReport)
    ensures
        r.model() == text_report(text@, found@),
{
    if let Some(error) = found.fault {
        return FrameReport::BadJson { len: text.as_bytes().len(), error };
    }
    let block = match whole_of(&found.metadata_block) {
        Some(block) => Some(block),
        None => whole_of(&found.diff_block),
    };
    let keys = match found.keys {
        Some(keys) => keys,
        None => {
            let none: Vec<String> = Vec::new();
            assert(words(none@) =~= Seq::<Seq<char>>::empty());
            none
        },
    };
    let pretty = match found.pretty {
        Some(pretty) => pretty,
        None => text.to_owned(),
    };
    FrameReport::Frame {
        keys,
        index: whole_of(&found.index),
        block,
        receipts: found.receipts.is_some(),
        txs: found.transactions,
        pretty,
    }
}

/// The report on the text of a frame.
fn describe_text(text: &str) -> (r: FrameReport)
    ensures
        r.model() == text_report(text@, findings_in(text@)),
{
    report_text(
        text,
        Findings {
            fault: parse_fault(text),
            keys: object_keys(text),
            index: read_json(text, "/index"),
            metadata_block: read_json(text, "/metadata/block_number"),
            diff_block: read_json(text, "/diff/block_number"),
            receipts: read_json(text, "/metadata/receipts"),
            transactions: array_length(text, "/diff/transactions"),
            pretty: indented(text),
        },
    )
}

/// The first bytes, sixteen at most.
fn first_bytes(bytes: &[u8]) -> (r: Vec<u8>)
    ensures
        r@ == bytes@.take(
            if bytes@.len() < 16 {
                bytes@.len() as int
            } else {
                16
            },
        ),
{
    let mut out: Vec<u8> = Vec::new();
    let mut i: usize = 0;
    while i < bytes.len() && i < 16
        invariant
            i <= bytes@.len(),
            i <= 16,
            out@ == bytes@.take(i as int),
        decreases 16 - i,
    {
        out.push(bytes[i]);
        i = i + 1;
        assert(bytes@.take(i as int) =~= bytes@.take(i - 1).push(bytes@[i - 1]));
    }
    out
}

/// Describe one frame, which is JSON as it stands or compressed. That a malformed compressed frame
/// is refused without a panic is the decompressor's, and is taken on trust.
pub fn describe_frame(bytes: &[u8]) -> (r: FrameReport)
    ensures
        r.model() == frame_report(bytes@, inflated(bytes@)),
{
    if let Some(text) = utf8_text(bytes) {
        if starts_object(text) {
            return describe_text(text);
        }
    }
    match inflate(bytes) {
        Some(plain) => {
            let text = lossy(plain.as_slice());
            describe_text(text.as_str())
        },
        None => FrameReport::Undecodable { len: bytes.len(), first: first_bytes(bytes) },
    }
}

/// The start of a text: as many whole characters as `limit` bytes hold.
pub fn opening(text: &str, limit: usize) -> (r: &str)
    ensures
        ({
            let bytes = encode_utf8(text@);
            let start = encode_utf8(r@);
            &&& start.len() <= limit && start.len() <= bytes.len()
            &&& start == bytes.subrange(0, start.len() as int)
            &&& is_char_boundary(bytes, start.len() as int)
            &&& forall|i: int| #![trigger is_char_boundary(bytes, i)]
                start.len() < i <= limit && i <= bytes.len() ==> !is_char_boundary(bytes, i)
        }),
{
    let ghost bytes = encode_utf8(text@);
    let len: usize = text.as_bytes().len();
    let mut end: usize = if len < limit {
        len
    } else {
        limit
    };
    proof {
        vstd::utf8::encode_utf8_valid_utf8(text@);
        assert(is_char_boundary(bytes, 0));
    }
    while !text.is_char_boundary(end)
        invariant
            bytes == encode_utf8(text@),
            valid_utf8(bytes),
            len == bytes.len(),
            end <= len,
            end <= limit,
            forall|i: int| #![trigger is_char_boundary(bytes, i)]
                end < i <= limit && i <= len ==> !is_char_boundary(bytes, i),
        decreases end,
    {
        assert(is_char_boundary(bytes, 0));
        end = end - 1;
    }
    text.split_at(end).0
}

} // verus!
