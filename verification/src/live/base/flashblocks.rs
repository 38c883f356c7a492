//! **Flashblocks** preconfirmations of Base.
//!
//! Flashblocks are an OP-stack feature: the sequencer emits partial-block "preconfirmations"
//! roughly every 200 ms, appended in `index` order to the block in progress, well before the
//! sealed block. This module only makes sense on Base, or another chain that has Flashblocks.
use crate::live::event::PoolEvent;
use crate::text::{blank, chars_of, trimmed_front};
use vstd::prelude::*;
use vstd::utf8::{decode_utf8, valid_utf8};

verus! {

/// Where a piece of state came from in Base's confirmation pipeline.
#[derive(Clone, Copy, Debug, PartialEq, Eq, Structural)]
pub enum Confirmation {
    /// Preconfirmation: the `index`-th Flashblock of the block in progress (0, 1, 2, ...).
    Flashblock { index: u64 },
    /// Canonical sealed block.
    Sealed,
}

/// One Flashblock preconfirmation: a batch of pool-state updates appended to the block in
/// progress. `events` are in intra-block order with block-cumulative `log_index`, so ordering is
/// consistent with the eventual sealed block.
#[derive(Clone, Debug)]
pub struct Flashblock {
    pub block: u64,
    pub index: u64,
    pub events: Vec<PoolEvent>,
}

/// Deterministic in-memory preconfirmations: the batches that a subscription yields, in order.
pub struct MockPreconf {
    pub batches: Vec<Flashblock>,
}

impl MockPreconf {
    /// Preconfirmations that consist of these batches.
    pub fn new(batches: Vec<Flashblock>) -> (r: MockPreconf)
        ensures
            r.batches == batches,
    {
        MockPreconf { batches }
    }
}

/// The Flashblocks stream of Base. It carries transactions but no receipts or logs, so each frame
/// is a cadence signal: its block and index, without events.
#[derive(Debug)]
pub struct BaseFlashblocksSource {
    pub url: String,
}

impl BaseFlashblocksSource {
    /// The public endpoint.
    pub const DEFAULT_URL: &'static str = "wss://mainnet.flashblocks.base.org/ws";

    /// The stream behind this endpoint.
    pub fn new(url: String) -> (r: BaseFlashblocksSource)
        ensures
            r.url == url,
    {
        BaseFlashblocksSource { url }
    }
}

/// What a JSON document holds in one place, as far as a frame is read.
#[derive(Debug)]
pub enum Scalar {
    /// An integer of 64 bits without a sign.
    Whole(u64),
    /// A text.
    Text(String),
    /// Anything else.
    Other,
}

/// A [`Scalar`] by its contents.
pub enum ScalarView {
    Whole(u64),
    Text(Seq<char>),
    Other,
}

impl View for Scalar {
    type V = ScalarView;

    open spec fn view(&self) -> ScalarView {
        match self {
            Scalar::Whole(n) => ScalarView::Whole(*n),
            Scalar::Text(s) => ScalarView::Text(s@),
            Scalar::Other => ScalarView::Other,
        }
    }
}

/// What stands in a place, by its contents.
pub open spec fn scalar_view(s: Option<Scalar>) -> Option<ScalarView> {
    match s {
        Some(s) => Some(s@),
        None => None,
    }
}

/// Bytes by their contents.
pub open spec fn bytes_view(b: Option<Vec<u8>>) -> Option<Seq<u8>> {
    match b {
        Some(b) => Some(b@),
        None => None,
    }
}

/// What a brotli stream decompresses to; nothing where the bytes are none.
pub uninterp spec fn inflated(bytes: Seq<u8>) -> Option<Seq<u8>>;

/// What a JSON text holds in the place that a JSON Pointer names; nothing where the text is no
/// JSON or holds nothing there.
pub uninterp spec fn json_at(text: Seq<char>, pointer: Seq<char>) -> Option<ScalarView>;

/// `brotli::Decompressor`, read to its end: the decompressed bytes, or nothing where the bytes are
/// no brotli stream. Nothing is claimed of what comes out but that it depends on the bytes alone,
/// and that the decompressor refuses every malformed stream without a panic is taken on trust.
#[verifier::external_body]
pub(crate) fn inflate(bytes: &[u8]) -> (r: Option<Vec<u8>>)
    ensures
        bytes_view(r) == inflated(bytes@),
{
    let mut out = Vec::new();
    let mut stream = brotli::Decompressor::new(bytes, 4096);
    std::io::Read::read_to_end(&mut stream, &mut out).ok()?;
    Some(out)
}

/// `serde_json::from_str` into a `serde_json::Value`, and `Value::pointer` in it: an unsigned
/// integer as `Value::as_u64` gives it, a text as `Value::as_str` gives it. Nothing is claimed of
/// the grammar but that the result depends on the text and the pointer alone.
#[verifier::external_body]
pub(crate) fn read_json(text: &str, pointer: &str) -> (r: Option<Scalar>)
    ensures
        scalar_view(r) == json_at(text@, pointer@),
{
    let document: serde_json::Value = serde_json::from_str(text).ok()?;
    let value = document.pointer(pointer)?;
    Some(match (value.as_u64(), value.as_str()) {
        (Some(n), _) => Scalar::Whole(n),
        (None, Some(s)) => Scalar::Text(s.to_owned()),
        (None, None) => Scalar::Other,
    })
}

/// [`std::str::from_utf8`]: the text that UTF-8 bytes spell, and nothing for other bytes.
#[verifier::external_body]
pub(crate) fn utf8_text(bytes: &[u8]) -> (r: Option<&str>)
    ensures
        match r {
            Some(s) => valid_utf8(bytes@) && s@ == decode_utf8(bytes@),
            None => !valid_utf8(bytes@),
        },
{
    std::str::from_utf8(bytes).ok()
}

/// A text that starts like a JSON object, after blanks.
pub open spec fn opens_object(text: Seq<char>) -> bool {
    trimmed_front(text).len() > 0 && trimmed_front(text)[0] == '{'
}

/// The text of a frame: the bytes themselves where they spell a JSON object, otherwise what they
/// decompress to.
pub open spec fn frame_text(bytes: Seq<u8>, plain: Option<Seq<u8>>) -> Option<Seq<char>> {
    if valid_utf8(bytes) && opens_object(decode_utf8(bytes)) {
        Some(decode_utf8(bytes))
    } else {
        match plain {
            Some(plain) => if valid_utf8(plain) {
                Some(decode_utf8(plain))
            } else {
                None
            },
            None => None,
        }
    }
}

/// A hexadecimal digit's value, or nothing.
pub open spec fn nibble(c: char) -> Option<int> {
    if '0' <= c <= '9' {
        Some(c as int - '0' as int)
    } else if 'a' <= c <= 'f' {
        Some(c as int - 'a' as int + 10)
    } else if 'A' <= c <= 'F' {
        Some(c as int - 'A' as int + 10)
    } else {
        None
    }
}

/// The number that hexadecimal digits spell; nothing where another character occurs.
pub open spec fn hex_value(s: Seq<char>) -> Option<int>
    decreases s.len(),
{
    if s.len() == 0 {
        Some(0)
    } else {
        match (hex_value(s.drop_last()), nibble(s.last())) {
            (Some(front), Some(d)) => Some(16 * front + d),
            _ => None,
        }
    }
}

/// A text without the `0x` that it starts with, however often.
pub open spec fn without_0x(s: Seq<char>) -> Seq<char>
    decreases s.len(),
{
    if s.len() >= 2 && s[0] == '0' && s[1] == 'x' {
        without_0x(s.skip(2))
    } else {
        s
    }
}

/// The digits of a number: a plus sign may stand before them.
pub open spec fn unsigned_digits(s: Seq<char>) -> Seq<char> {
    if s.len() > 0 && s[0] == '+' {
        s.skip(1)
    } else {
        s
    }
}

/// The number of 64 bits that a hexadecimal text spells, if it spells one.
pub open spec fn hex_number(s: Seq<char>) -> Option<u64> {
    let digits = unsigned_digits(without_0x(s));
    match hex_value(digits) {
        Some(n) => if digits.len() > 0 && n <= u64::MAX {
            Some(n as u64)
        } else {
            None
        },
        None => None,
    }
}

proof fn lemma_hex_grows(s: Seq<char>, n: int)
    requires
        0 <= n <= s.len(),
    ensures
        hex_value(s) matches Some(v) ==> match hex_value(s.take(n)) {
            Some(front) => 0 <= front <= v,
            None => false,
        },
    decreases s.len() - n,
{
    lemma_hex_positive(s.take(n));
    if n < s.len() {
        lemma_hex_grows(s, n + 1);
        assert(s.take(n + 1).drop_last() =~= s.take(n));
    } else {
        assert(s.take(n) =~= s);
    }
}

proof fn lemma_hex_positive(s: Seq<char>)
    ensures
        hex_value(s) matches Some(v) ==> v >= 0,
    decreases s.len(),
{
    if s.len() > 0 {
        lemma_hex_positive(s.drop_last());
    }
}

/// A hexadecimal digit's value.
fn nibble_of(c: char) -> (r: Option<u64>)
    ensures
        match (r, nibble(c)) {
            (Some(d), Some(v)) => d == v && d < 16,
            (None, None) => true,
            _ => false,
        },
{
    if '0' <= c && c <= '9' {
        Some(c as u64 - 0x30)
    } else if 'a' <= c && c <= 'f' {
        Some(c as u64 - 0x61 + 10)
    } else if 'A' <= c && c <= 'F' {
        Some(c as u64 - 0x41 + 10)
    } else {
        None
    }
}

/// The number of 64 bits that a hexadecimal text spells, with or without `0x` before it.
pub fn parse_hex(s: &str) -> (r: Option<u64>)
    ensures
        r == hex_number(s@),
{
    let chars = chars_of(s);
    let mut from: usize = 0;
    assert(s@.skip(0) =~= s@);
    while chars.len() - from >= 2 && chars[from] == '0' && chars[from + 1] == 'x'
        invariant
            chars@ == s@,
            from <= chars.len(),
            without_0x(s@) == without_0x(s@.skip(from as int)),
        decreases chars.len() - from,
    {
        assert(s@.skip(from as int).skip(2) =~= s@.skip(from + 2));
        from = from + 2;
    }
    let ghost rest = s@.skip(from as int);
    assert(without_0x(s@) == rest);
    if from < chars.len() && chars[from] == '+' {
        assert(rest.skip(1) =~= s@.skip(from + 1));
        from = from + 1;
    }
    let ghost digits = s@.skip(from as int);
    assert(digits == unsigned_digits(rest));
    if from == chars.len() {
        return None;
    }
    let mut value: u64 = 0;
    let mut i: usize = from;
    assert(digits.take(0) =~= Seq::<char>::empty());
    while i < chars.len()
        invariant
            chars@ == s@,
            from <= i <= chars.len(),
            digits == s@.skip(from as int),
            digits.len() > 0,
            digits == unsigned_digits(without_0x(s@)),
            hex_value(digits.take(i - from)) == Some(value as int),
        decreases chars.len() - i,
    {
        let ghost n = i - from;
        proof {
            assert(digits[n] == s@[i as int]);
            assert(digits.take(n + 1).drop_last() =~= digits.take(n));
            lemma_hex_grows(digits, n + 1);
        }
        match nibble_of(chars[i]) {
            Some(d) => {
                if value > (u64::MAX - d) / 16 {
                    assert(16 * value + d > u64::MAX);
                    return None;
                }
                value = 16 * value + d;
            },
            None => {
                return None;
            },
        }
        i = i + 1;
    }
    assert(digits.take(i - from) =~= digits);
    Some(value)
}

/// A block number, as an integer or as a hexadecimal text.
pub open spec fn number_of(s: Option<ScalarView>) -> Option<u64> {
    match s {
        Some(ScalarView::Whole(n)) => Some(n),
        Some(ScalarView::Text(t)) => hex_number(t),
        _ => None,
    }
}

/// The block and the index of a frame. `metadata.block_number` is a plain integer;
/// `base.block_number`, which only the first frame of a block has, is a hexadecimal text. Either
/// form is accepted in either place, and the first place that holds a number counts.
pub open spec fn frame_place(
    index: Option<ScalarView>,
    metadata: Option<ScalarView>,
    base: Option<ScalarView>,
) -> Option<(u64, u64)> {
    match index {
        Some(ScalarView::Whole(i)) => match (number_of(metadata), number_of(base)) {
            (Some(block), _) => Some((block, i)),
            (None, Some(block)) => Some((block, i)),
            (None, None) => None,
        },
        _ => None,
    }
}

/// A block number, as an integer or as a hexadecimal text.
fn number(s: &Option<Scalar>) -> (r: Option<u64>)
    ensures
        r == number_of(scalar_view(*s)),
{
    match s {
        Some(Scalar::Whole(n)) => Some(*n),
        Some(Scalar::Text(t)) => parse_hex(t.as_str()),
        _ => None,
    }
}

/// The block and the index of a frame, from what stands in `index`, in `metadata.block_number` and
/// in `base.block_number`.
pub fn place_frame(index: Option<Scalar>, metadata: Option<Scalar>, base: Option<Scalar>) -> (r:
    Option<(u64, u64)>)
    ensures
        r == frame_place(scalar_view(index), scalar_view(metadata), scalar_view(base)),
{
    match index {
        Some(Scalar::Whole(i)) => match number(&metadata) {
            Some(block) => Some((block, i)),
            None => match number(&base) {
                Some(block) => Some((block, i)),
                None => None,
            },
        },
        _ => None,
    }
}

/// Whether a text starts like a JSON object, after blanks.
pub(crate) fn starts_object(text: &str) -> (r: bool)
    ensures
        r == opens_object(text@),
{
    let chars = chars_of(text);
    let mut from: usize = 0;
    assert(text@.skip(0) =~= text@);
    while from < chars.len() && blank(chars[from])
        invariant
            from <= chars.len(),
            chars@ == text@,
            trimmed_front(text@) == trimmed_front(text@.skip(from as int)),
        decreases chars.len() - from,
    {
        assert(text@.skip(from as int).drop_first() =~= text@.skip(from + 1));
        from = from + 1;
    }
    from < chars.len() && chars[from] == '{'
}

/// The block and the index of a frame's JSON text.
fn read_frame(text: &str) -> (r: Option<(u64, u64)>)
    ensures
        r == frame_place(
            json_at(text@, "/index"@),
            json_at(text@, "/metadata/block_number"@),
            json_at(text@, "/base/block_number"@),
        ),
{
    place_frame(
        read_json(text, "/index"),
        read_json(text, "/metadata/block_number"),
        read_json(text, "/base/block_number"),
    )
}

/// Decode one frame, which is JSON as it stands or compressed, into its block number and index.
/// Nothing comes of control frames and of what cannot be parsed. That a malformed compressed frame
/// is refused without a panic is the decompressor's, and is taken on trust.
pub fn decode_frame(bytes: &[u8]) -> (r: Option<(u64, u64)>)
    ensures
        r == (match frame_text(bytes@, inflated(bytes@)) {
            Some(text) => frame_place(
                json_at(text, "/index"@),
                json_at(text, "/metadata/block_number"@),
                json_at(text, "/base/block_number"@),
            ),
            None => None,
        }),
{
    if let Some(text) = utf8_text(bytes) {
        if starts_object(text) {
            return read_frame(text);
        }
    }
    match inflate(bytes) {
        Some(plain) => match utf8_text(plain.as_slice()) {
            Some(text) => read_frame(text),
            None => None,
        },
        None => None,
    }
}

} // verus!
