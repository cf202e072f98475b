//! Peer identifiers and their text form.

use vstd::prelude::*;
use vstd::utf8::{
    encode_scalar, encode_utf8, has_width_1_encoding, is_ascii_chars, is_ascii_chars_encode_utf8,
    leading_byte_width_1, leading_byte_width_2, leading_byte_width_3, leading_byte_width_4,
};

use crate::decimal::{decimal, lemma_char_number};
use crate::seqs::lemma_filter_all;

verus! {

/// The most bytes that a peer identifier has.
pub const PID_MAX_SIZE: usize = 16;

/// The identifier of a peer: the first `size` bytes of `id`.
#[derive(Clone, Copy, PartialEq, Eq, Debug)]
pub struct PeerId {
    pub size: usize,
    pub id: [u8; 16],
}

impl View for PeerId {
    type V = Seq<u8>;

    open spec fn view(&self) -> Seq<u8> {
        self.id@.take(self.size as int)
    }
}

impl PeerId {
    pub open spec fn wf(self) -> bool {
        self.size <= PID_MAX_SIZE
    }

    /// The identifier made of the first `size` bytes of `id`.
    pub fn new(size: usize, id: [u8; 16]) -> (pid: PeerId)
        requires
            size <= PID_MAX_SIZE,
        ensures
            pid == (PeerId { size, id }),
            pid.wf(),
    {
        PeerId { size, id }
    }

    /// The bytes of the identifier.
    pub fn to_bytes(&self) -> (bytes: Vec<u8>)
        requires
            self.wf(),
        ensures
            bytes@ == self@,
    {
        let mut bytes: Vec<u8> = Vec::new();
        for i in 0..self.size
            invariant
                self.wf(),
                bytes@ == self.id@.take(i as int),
        {
            bytes.push(self.id[i]);
            proof {
                assert(self.id@.take(i + 1) =~= self.id@.take(i as int).push(self.id@[i as int]));
            }
        }
        bytes
    }

    /// The identifier in upper-case hexadecimal digits.
    pub fn to_text(&self) -> (s: String)
        requires
            self.wf(),
        ensures
            s@ == hex_upper(self@),
    {
        let bytes = self.to_bytes();
        hex_encode_upper(bytes.as_slice())
    }
}

/// `bytes` with zeros behind them, up to the length of an identifier.
pub open spec fn padded(bytes: Seq<u8>) -> Seq<u8> {
    Seq::new(
        PID_MAX_SIZE as nat,
        |i: int|
            if i < bytes.len() {
                bytes[i]
            } else {
                0u8
            },
    )
}

/// What is wrong with a text that should be hexadecimal.
#[derive(Clone, Copy, PartialEq, Eq, Structural, Debug)]
pub enum HexError {
    InvalidHexCharacter { c: char, index: usize },
    OddLength,
    InvalidStringLength,
}

/// The value of a hexadecimal digit of either case.
pub open spec fn hex_value(b: u8) -> Option<int> {
    if 48 <= b <= 57 {
        Some(b - 48)
    } else if 65 <= b <= 70 {
        Some(b - 55)
    } else if 97 <= b <= 102 {
        Some(b - 87)
    } else {
        None
    }
}

/// The place of the first byte that is no hexadecimal digit, or the length where all are.
pub open spec fn first_non_hex(s: Seq<u8>) -> int
    decreases s.len(),
{
    if s.len() == 0 || hex_value(s[0]) is None {
        0
    } else {
        1 + first_non_hex(s.skip(1))
    }
}

/// The bytes that pairs of hexadecimal digits stand for.
pub open spec fn hex_decoded(s: Seq<u8>) -> Result<Seq<u8>, HexError> {
    let bad = first_non_hex(s);
    if s.len() % 2 != 0 {
        Err(HexError::OddLength)
    } else if bad < s.len() {
        Err(HexError::InvalidHexCharacter { c: s[bad] as char, index: bad as usize })
    } else {
        Ok(
            Seq::new(
                s.len() / 2,
                |i: int| (16 * hex_value(s[2 * i])->0 + hex_value(s[2 * i + 1])->0) as u8,
            ),
        )
    }
}

/// The upper-case hexadecimal digit for `d`.
pub open spec fn upper_digit(d: int) -> char {
    if d < 10 {
        (48 + d) as char
    } else {
        (55 + d) as char
    }
}

/// Two upper-case hexadecimal digits for each byte.
pub open spec fn hex_upper(s: Seq<u8>) -> Seq<char> {
    Seq::new(
        2 * s.len(),
        |i: int|
            if i % 2 == 0 {
                upper_digit(s[i / 2] as int / 16)
            } else {
                upper_digit(s[i / 2] as int % 16)
            },
    )
}

/// `hex::decode`: pairs of hexadecimal digits of either case become bytes. An odd number of
/// digits is refused first, then the first byte that is no digit, told as the character of its
/// number.
#[verifier::external_body]
fn hex_decode(data: &[u8]) -> (r: Result<Vec<u8>, HexError>)
    ensures
        match r {
            Ok(v) => hex_decoded(data@) == Ok::<Seq<u8>, HexError>(v@),
            Err(e) => hex_decoded(data@) == Err::<Seq<u8>, HexError>(e),
        },
{
    match hex::decode(data) {
        Ok(v) => Ok(v),
        Err(hex::FromHexError::InvalidHexCharacter { c, index }) => {
            Err(HexError::InvalidHexCharacter { c, index })
        },
        Err(hex::FromHexError::OddLength) => Err(HexError::OddLength),
        Err(hex::FromHexError::InvalidStringLength) => Err(HexError::InvalidStringLength),
    }
}

/// `hex::encode_upper`: two upper-case hexadecimal digits for each byte.
#[verifier::external_body]
fn hex_encode_upper(data: &[u8]) -> (s: String)
    requires
        2 * data@.len() <= isize::MAX,
    ensures
        s@ == hex_upper(data@),
{
    hex::encode_upper(data)
}

/// A character as the standard library displays it for debugging: between single quotes, with an
/// escape where it cannot be printed.
pub uninterp spec fn char_debug(c: char) -> Seq<char>;

/// The words for a text that is not hexadecimal.
pub open spec fn hex_error_text(e: HexError) -> Seq<char> {
    match e {
        HexError::InvalidHexCharacter { c, index } => {
            "Invalid character "@ + char_debug(c) + " at position "@ + decimal(index as nat)
        },
        HexError::OddLength => "Odd number of digits"@,
        HexError::InvalidStringLength => "Invalid string length"@,
    }
}

/// The display of `hex::FromHexError`: a bad character is quoted with its place. How the
/// standard library quotes it is named only.
#[verifier::external_body]
pub(crate) fn hex_error_to_string(e: HexError) -> (s: String)
    ensures
        s@ == (match e {
            HexError::InvalidHexCharacter { c, index } => {
                "Invalid character "@ + char_debug(c) + " at position "@ + decimal(index as nat)
            },
            HexError::OddLength => "Odd number of digits"@,
            HexError::InvalidStringLength => "Invalid string length"@,
        }),
{
    match e {
        HexError::InvalidHexCharacter { c, index } => {
            hex::FromHexError::InvalidHexCharacter { c, index }.to_string()
        },
        HexError::OddLength => hex::FromHexError::OddLength.to_string(),
        HexError::InvalidStringLength => hex::FromHexError::InvalidStringLength.to_string(),
    }
}

/// `str::replace` of the standard library with a character and nothing to put in its place:
/// the text without that character.
#[verifier::external_body]
fn without_char(s: &str, c: char) -> (r: String)
    ensures
        r@ == s@.filter(|x: char| x != c),
{
    s.replace(c, "")
}

/// `uuid::Uuid::new_v4`: sixteen random bytes, but for those bits that tell the version, four,
/// and the variant. The call panics where the system has no randomness to give.
#[verifier::external_body]
pub(crate) fn random_uuid() -> (bytes: [u8; 16])
    ensures
        is_random_uuid(bytes@),
{
    uuid::Uuid::new_v4().into_bytes()
}

/// The bytes carry the version and the variant of a random identifier.
pub open spec fn is_random_uuid(bytes: Seq<u8>) -> bool {
    bytes[6] / 16 == 4 && 128 <= bytes[8] < 192
}

/// Why a text is no peer identifier.
pub enum PidErrorView {
    InvalidId { id: Seq<char>, cause: HexError },
    InvalidSize { size: nat },
}

/// Why a text is no peer identifier: what is left of it without dashes is not hexadecimal, or
/// stands for too many bytes.
#[derive(Debug)]
pub enum PidError {
    InvalidId { id: String, cause: HexError },
    InvalidSize { size: usize },
}

impl View for PidError {
    type V = PidErrorView;

    open spec fn view(&self) -> PidErrorView {
        match *self {
            PidError::InvalidId { id, cause } => PidErrorView::InvalidId { id: id@, cause },
            PidError::InvalidSize { size } => PidErrorView::InvalidSize { size: size as nat },
        }
    }
}

/// `text` without dashes, which a UUID has between its groups.
pub open spec fn without_dashes(text: Seq<char>) -> Seq<char> {
    text.filter(|x: char| x != '-')
}

/// The identifier that bytes make, if they are not too many.
pub open spec fn sized_pid(bytes: Seq<u8>) -> Result<Seq<u8>, PidErrorView> {
    if bytes.len() > PID_MAX_SIZE {
        Err(PidErrorView::InvalidSize { size: bytes.len() })
    } else {
        Ok(bytes)
    }
}

/// The bytes of the identifier that a text stands for.
pub open spec fn pid_of(text: Seq<char>) -> Result<Seq<u8>, PidErrorView> {
    match hex_decoded(encode_utf8(without_dashes(text))) {
        Ok(bytes) => sized_pid(bytes),
        Err(cause) => Err(PidErrorView::InvalidId { id: without_dashes(text), cause }),
    }
}

/// The identifier that bytes make.
pub fn pid_from_bytes(bytes: &Vec<u8>) -> (r: Result<PeerId, PidError>)
    ensures
        match r {
            Ok(pid) => {
                &&& pid.wf()
                &&& sized_pid(bytes@) == Ok::<Seq<u8>, PidErrorView>(pid@)
                &&& pid.id@ == padded(bytes@)
            },
            Err(e) => sized_pid(bytes@) == Err::<Seq<u8>, PidErrorView>(e@),
        },
{
    let size = bytes.len();
    if size > PID_MAX_SIZE {
        return Err(PidError::InvalidSize { size });
    }
    let mut id: [u8; 16] = [0u8;16];
    for i in 0..size
        invariant
            size == bytes.len(),
            size <= PID_MAX_SIZE,
            id@ =~= padded(bytes@.take(i as int)),
    {
        id[i] = bytes[i];
    }
    proof {
        assert(bytes@.take(size as int) =~= bytes@);
        assert(id@.take(size as int) =~= bytes@);
    }
    Ok(PeerId::new(size, id))
}

/// The identifier that a text stands for.
pub fn pid_from_text(text: &str) -> (r: Result<PeerId, PidError>)
    ensures
        match r {
            Ok(pid) => {
                &&& pid.wf()
                &&& pid_of(text@) == Ok::<Seq<u8>, PidErrorView>(pid@)
                &&& pid.id@ == padded(pid@)
            },
            Err(e) => pid_of(text@) == Err::<Seq<u8>, PidErrorView>(e@),
        },
{
    let stripped = without_char(text, '-');
    match hex_decode(stripped.as_str().as_bytes()) {
        Ok(bytes) => pid_from_bytes(&bytes),
        Err(cause) => Err(PidError::InvalidId { id: stripped, cause }),
    }
}

/// Where all bytes are hexadecimal digits, no other is found.
proof fn lemma_all_hex(s: Seq<u8>)
    requires
        forall|i: int| 0 <= i < s.len() ==> hex_value(#[trigger] s[i]) is Some,
    ensures
        first_non_hex(s) == s.len(),
    decreases s.len(),
{
    if s.len() > 0 {
        let rest = s.skip(1);
        assert forall|i: int| 0 <= i < rest.len() implies hex_value(#[trigger] rest[i]) is Some by {
            assert(rest[i] == s[i + 1]);
        }
        lemma_all_hex(rest);
        assert(hex_value(s[0]) is Some);
    }
}

/// The text of an identifier stands for that identifier.
pub proof fn law_pid_text_is_read_back(bytes: Seq<u8>)
    requires
        bytes.len() <= PID_MAX_SIZE,
    ensures
        pid_of(hex_upper(bytes)) == Ok::<Seq<u8>, PidErrorView>(bytes),
{
    lemma_hex_is_read_back(bytes);
}

/// The text of more than sixteen bytes is refused with their number, and that of fewer is not.
pub proof fn law_long_texts_are_refused(bytes: Seq<u8>)
    ensures
        bytes.len() > 16 ==> pid_of(hex_upper(bytes)) == Err::<Seq<u8>, PidErrorView>(
            PidErrorView::InvalidSize { size: bytes.len() },
        ),
        bytes.len() <= 16 ==> pid_of(hex_upper(bytes)) == Ok::<Seq<u8>, PidErrorView>(bytes),
{
    lemma_hex_is_read_back(bytes);
}

/// Bytes come back out of their upper-case hexadecimal digits.
proof fn lemma_hex_is_read_back(bytes: Seq<u8>)
    ensures
        hex_decoded(encode_utf8(without_dashes(hex_upper(bytes)))) == Ok::<Seq<u8>, HexError>(
            bytes,
        ),
{
    let text = hex_upper(bytes);
    assert forall|i: int| 0 <= i < text.len() implies {
        let c = #[trigger] text[i];
        &&& 48 <= c as int <= 57 || 65 <= c as int <= 70
        &&& hex_value(c as u8) == Some(
            if i % 2 == 0 {
                bytes[i / 2] as int / 16
            } else {
                bytes[i / 2] as int % 16
            },
        )
    } by {}
    lemma_filter_all(text, |x: char| x != '-');
    assert(is_ascii_chars(text));
    is_ascii_chars_encode_utf8(text);
    let encoded = encode_utf8(text);
    assert forall|i: int| 0 <= i < encoded.len() implies hex_value(#[trigger] encoded[i]) == Some(
        if i % 2 == 0 {
            bytes[i / 2] as int / 16
        } else {
            bytes[i / 2] as int % 16
        },
    ) by {
        assert(encoded[i] == text[i] as u8);
    }
    lemma_all_hex(encoded);
    let decoded = Seq::new(
        encoded.len() / 2,
        |i: int| (16 * hex_value(encoded[2 * i])->0 + hex_value(encoded[2 * i + 1])->0) as u8,
    );
    assert forall|i: int| 0 <= i < decoded.len() implies decoded[i] == bytes[i] by {
        assert((2 * i) / 2 == i && (2 * i + 1) / 2 == i);
        assert((2 * i) % 2 == 0 && (2 * i + 1) % 2 == 1);
    }
    assert(decoded =~= bytes);
}

/// Dashes in a text make no difference to the identifier it stands for.
pub proof fn law_dashes_do_not_count(text: Seq<char>)
    ensures
        pid_of(without_dashes(text)) == pid_of(text),
{
    let keep = |x: char| x != '-';
    let kept = without_dashes(text);
    assert forall|i: int| 0 <= i < kept.len() implies keep(#[trigger] kept[i]) by {
        text.lemma_filter_pred(keep, i);
    }
    lemma_filter_all(kept, keep);
}

/// The two characters are the same, or one hexadecimal letter in either case.
pub open spec fn same_but_for_case(a: char, b: char) -> bool {
    let (x, y) = (a as int, b as int);
    a == b || (65 <= x <= 70 && y == x + 32) || (65 <= y <= 70 && x == y + 32)
}

/// The two texts differ in nothing but the case of hexadecimal letters.
pub open spec fn texts_same_but_for_case(a: Seq<char>, b: Seq<char>) -> bool {
    a.len() == b.len() && forall|i: int|
        0 <= i < a.len() ==> same_but_for_case(#[trigger] a[i], b[i])
}

/// The two bytes are the same, or hexadecimal digits of the same value.
spec fn bytes_agree(a: Seq<u8>, b: Seq<u8>) -> bool {
    a.len() == b.len() && forall|i: int|
        #![trigger a[i]]
        #![trigger b[i]]
        0 <= i < a.len() ==> a[i] == b[i] || (hex_value(a[i]) is Some && hex_value(a[i])
            == hex_value(b[i]))
}

/// Leaving out dashes makes no difference to how two texts compare.
proof fn lemma_case_without_dashes(a: Seq<char>, b: Seq<char>)
    requires
        texts_same_but_for_case(a, b),
    ensures
        texts_same_but_for_case(without_dashes(a), without_dashes(b)),
    decreases a.len(),
{
    reveal(Seq::filter);
    if a.len() > 0 {
        let (p, q) = (a.drop_last(), b.drop_last());
        assert forall|i: int| 0 <= i < p.len() implies same_but_for_case(#[trigger] p[i], q[i]) by {
            assert(p[i] == a[i] && q[i] == b[i]);
        }
        lemma_case_without_dashes(p, q);
        assert(same_but_for_case(a[a.len() - 1], b[a.len() - 1]));
        let (x, y) = (without_dashes(a), without_dashes(b));
        let (v, w) = (without_dashes(p), without_dashes(q));
        assert forall|i: int| 0 <= i < x.len() implies same_but_for_case(#[trigger] x[i], y[i]) by {
            if i < v.len() {
                assert(x[i] == v[i] && y[i] == w[i]);
            }
        }
    }
}

/// Hexadecimal letters are single bytes, and their case makes no difference to their value.
proof fn lemma_case_encoded(a: Seq<char>, b: Seq<char>)
    requires
        texts_same_but_for_case(a, b),
    ensures
        bytes_agree(encode_utf8(a), encode_utf8(b)),
    decreases a.len(),
{
    if a.len() > 0 {
        let (p, q) = (a.drop_first(), b.drop_first());
        assert forall|i: int| 0 <= i < p.len() implies same_but_for_case(#[trigger] p[i], q[i]) by {
            assert(p[i] == a[i + 1] && q[i] == b[i + 1]);
        }
        lemma_case_encoded(p, q);
        assert(same_but_for_case(a[0], b[0]));
        let (x, y) = (encode_scalar(a[0] as u32), encode_scalar(b[0] as u32));
        if a[0] != b[0] {
            is_ascii_chars_encode_utf8(seq![a[0]]);
            is_ascii_chars_encode_utf8(seq![b[0]]);
            reveal_with_fuel(encode_utf8, 2);
            assert(x =~= encode_utf8(seq![a[0]]));
            assert(y =~= encode_utf8(seq![b[0]]));
            assert(x[0] == a[0] as u8 && y[0] == b[0] as u8);
        }
        assert(bytes_agree(x, y));
        let (v, w) = (encode_utf8(p), encode_utf8(q));
        assert(encode_utf8(a) == x + v && encode_utf8(b) == y + w);
        assert forall|i: int|
            #![trigger (x + v)[i]]
            #![trigger (y + w)[i]]
            0 <= i < (x + v).len() implies (x + v)[i] == (y + w)[i] || (hex_value(
            (x + v)[i],
        ) is Some && hex_value((x + v)[i]) == hex_value((y + w)[i])) by {
            if i < x.len() {
                assert((x + v)[i] == x[i] && (y + w)[i] == y[i]);
            } else {
                assert((x + v)[i] == v[i - x.len()] && (y + w)[i] == w[i - x.len()]);
            }
        }
    }
}

/// Bytes that agree are decoded alike.
proof fn lemma_agreeing_decoded(a: Seq<u8>, b: Seq<u8>)
    requires
        bytes_agree(a, b),
    ensures
        hex_decoded(a) == hex_decoded(b),
{
    lemma_agreeing_first(a, b);
    lemma_first_non_hex(a);
    lemma_first_non_hex(b);
    if a.len() % 2 == 0 && first_non_hex(a) == a.len() {
        assert(hex_decoded(a)->Ok_0 =~= hex_decoded(b)->Ok_0);
    }
}

/// Bytes that agree have their first byte that is no digit at the same place.
proof fn lemma_agreeing_first(a: Seq<u8>, b: Seq<u8>)
    requires
        bytes_agree(a, b),
    ensures
        first_non_hex(a) == first_non_hex(b),
    decreases a.len(),
{
    if a.len() > 0 {
        let (p, q) = (a.skip(1), b.skip(1));
        assert forall|i: int|
            #![trigger p[i]]
            #![trigger q[i]]
            0 <= i < p.len() implies p[i] == q[i] || (hex_value(p[i]) is Some && hex_value(p[i])
            == hex_value(q[i])) by {
            assert(p[i] == a[i + 1] && q[i] == b[i + 1]);
        }
        lemma_agreeing_first(p, q);
        assert(a[0] == b[0] || hex_value(a[0]) == hex_value(b[0]));
    }
}

/// What is found is no digit.
proof fn lemma_first_non_hex(s: Seq<u8>)
    ensures
        0 <= first_non_hex(s) <= s.len(),
        first_non_hex(s) < s.len() ==> hex_value(s[first_non_hex(s)]) is None,
    decreases s.len(),
{
    if s.len() > 0 && hex_value(s[0]) is Some {
        lemma_first_non_hex(s.skip(1));
    }
}

/// The case of hexadecimal letters in a text makes no difference to the identifier that it
/// stands for, nor to what is wrong with it.
pub proof fn law_case_does_not_count(a: Seq<char>, b: Seq<char>)
    requires
        texts_same_but_for_case(a, b),
    ensures
        match (pid_of(a), pid_of(b)) {
            (Ok(x), Ok(y)) => x == y,
            (
                Err(PidErrorView::InvalidId { id: x, cause: c }),
                Err(PidErrorView::InvalidId { id: y, cause: d }),
            ) => texts_same_but_for_case(x, y) && c == d,
            (Err(x), Err(y)) => x == y,
            _ => false,
        },
{
    lemma_case_without_dashes(a, b);
    lemma_case_encoded(without_dashes(a), without_dashes(b));
    lemma_agreeing_decoded(encode_utf8(without_dashes(a)), encode_utf8(without_dashes(b)));
}

/// A dash put anywhere into a text makes no difference to the identifier that it stands for.
pub proof fn law_a_dash_does_not_count(before: Seq<char>, after: Seq<char>)
    ensures
        pid_of(before + seq!['-'] + after) == pid_of(before + after),
{
    let keep = |x: char| x != '-';
    reveal(Seq::filter);
    assert(seq!['-'].drop_last() =~= Seq::<char>::empty());
    assert(seq!['-'].filter(keep) =~= Seq::<char>::empty()) by {
        reveal_with_fuel(Seq::filter, 2);
    }
    Seq::filter_distributes_over_add(before + seq!['-'], after, keep);
    Seq::filter_distributes_over_add(before, seq!['-'], keep);
    Seq::filter_distributes_over_add(before, after, keep);
    assert(before.filter(keep) + Seq::<char>::empty() =~= before.filter(keep));
    assert(without_dashes(before + seq!['-'] + after) == without_dashes(before + after));
}

/// `c` is a hexadecimal digit of either case.
pub open spec fn is_hex_digit(c: char) -> bool {
    48 <= c as int <= 57 || 65 <= c as int <= 70 || 97 <= c as int <= 102
}

/// A text with a character that is neither a hexadecimal digit nor a dash is refused as no
/// identifier.
pub proof fn law_other_characters_are_refused(text: Seq<char>, i: int)
    requires
        0 <= i < text.len(),
        text[i] != '-',
        !is_hex_digit(text[i]),
    ensures
        pid_of(text) is Err,
        pid_of(text)->Err_0 is InvalidId,
{
    let keep = |x: char| x != '-';
    let kept = without_dashes(text);
    text.lemma_filter_contains(keep, i);
    let j = choose|j: int| 0 <= j < kept.len() && kept[j] == text[i];
    lemma_bad_byte(kept, j);
    let bytes = encode_utf8(kept);
    let k = choose|k: int| 0 <= k < bytes.len() && hex_value(#[trigger] bytes[k]) is None;
    lemma_bad_byte_is_found(bytes, k);
}

/// A character that is no hexadecimal digit has a byte that is none.
proof fn lemma_bad_byte(chars: Seq<char>, j: int)
    requires
        0 <= j < chars.len(),
        !is_hex_digit(chars[j]),
    ensures
        exists|k: int|
            0 <= k < encode_utf8(chars).len() && hex_value(#[trigger] encode_utf8(chars)[k]) is None,
    decreases chars.len(),
{
    let head = encode_scalar(chars[0] as u32);
    let rest = encode_utf8(chars.drop_first());
    let bytes = encode_utf8(chars);
    assert(bytes == head + rest);
    if j == 0 {
        let c = chars[0] as u32;
        lemma_char_number(chars[0]);
        if has_width_1_encoding(c) {
            assert(c as u8 == leading_byte_width_1(c)) by (bit_vector)
                requires
                    0 <= c <= 0x7F,
            ;
        }
        assert(leading_byte_width_2(c) >= 0x80) by {
            let b = ((c >> 6) & 0x1F) as u8;
            assert(0xC0u8 | b >= 0x80u8) by (bit_vector);
        }
        assert(leading_byte_width_3(c) >= 0x80) by {
            let b = ((c >> 12) & 0x0F) as u8;
            assert(0xE0u8 | b >= 0x80u8) by (bit_vector);
        }
        assert(leading_byte_width_4(c) >= 0x80) by {
            let b = ((c >> 18) & 0x7) as u8;
            assert(0xF0u8 | b >= 0x80u8) by (bit_vector);
        }
        assert(hex_value(head[0]) is None);
        assert(bytes[0] == head[0]);
    } else {
        let tail = chars.drop_first();
        assert(tail[j - 1] == chars[j]);
        lemma_bad_byte(tail, j - 1);
        let k = choose|k: int| 0 <= k < rest.len() && hex_value(#[trigger] rest[k]) is None;
        assert(bytes[head.len() + k] == rest[k]);
    }
}

/// A byte that is no digit is found, or one before it.
proof fn lemma_bad_byte_is_found(s: Seq<u8>, k: int)
    requires
        0 <= k < s.len(),
        hex_value(s[k]) is None,
    ensures
        first_non_hex(s) <= k,
    decreases s.len(),
{
    if hex_value(s[0]) is Some {
        assert(s.skip(1)[k - 1] == s[k]);
        lemma_bad_byte_is_found(s.skip(1), k - 1);
    }
}

/// A text that is refused as no identifier is quoted without its dashes and otherwise as it is.
pub proof fn law_refused_texts_are_quoted(text: Seq<char>)
    requires
        pid_of(text) is Err,
        pid_of(text)->Err_0 is InvalidId,
    ensures
        forall|c: char| #[trigger]
            pid_of(text)->Err_0->id.contains(c) <==> text.contains(c) && c != '-',
        !text.contains('-') ==> pid_of(text)->Err_0->id == text,
{
    let keep = |x: char| x != '-';
    let kept = without_dashes(text);
    assert forall|c: char| #[trigger] kept.contains(c) <==> text.contains(c) && c != '-' by {
        if kept.contains(c) {
            text.lemma_filter_contains_rev(keep, c);
            let i = choose|i: int| 0 <= i < kept.len() && kept[i] == c;
            text.lemma_filter_pred(keep, i);
        }
        if text.contains(c) && c != '-' {
            let i = choose|i: int| 0 <= i < text.len() && text[i] == c;
            text.lemma_filter_contains(keep, i);
        }
    }
    if !text.contains('-') {
        assert forall|i: int| 0 <= i < text.len() implies keep(#[trigger] text[i]) by {
            assert(text.contains(text[i]));
        }
        lemma_filter_all(text, keep);
    }
}

/// An identifier that is padded has its bytes first and then zeros, sixteen in all.
pub proof fn law_padding_is_zeros(bytes: Seq<u8>)
    requires
        bytes.len() <= 16,
    ensures
        padded(bytes).len() == 16,
        forall|i: int| 0 <= i < bytes.len() ==> #[trigger] padded(bytes)[i] == bytes[i],
        forall|i: int| bytes.len() <= i < 16 ==> #[trigger] padded(bytes)[i] == 0,
{
}

/// The bytes of an identifier are as many of its first ones as its size says.
pub proof fn law_pid_has_its_bytes(pid: PeerId)
    requires
        pid.size <= 16,
    ensures
        pid@.len() == pid.size,
        forall|i: int| 0 <= i < pid.size ==> #[trigger] pid@[i] == pid.id@[i],
{
}

/// A refusal says what it holds: the text and what is wrong with it, or the number of bytes.
pub proof fn law_refusals_say_what_they_hold(id: String, cause: HexError, size: usize)
    ensures
        (PidError::InvalidId { id, cause })@ == (PidErrorView::InvalidId { id: id@, cause }),
        (PidError::InvalidSize { size })@ == (PidErrorView::InvalidSize { size: size as nat }),
{
}

/// Sixteen bytes or fewer make an identifier of just these bytes, more are refused with their
/// number.
pub proof fn law_bytes_make_an_identifier(bytes: Seq<u8>)
    ensures
        bytes.len() <= 16 ==> sized_pid(bytes) == Ok::<Seq<u8>, PidErrorView>(bytes),
        bytes.len() > 16 ==> sized_pid(bytes) == Err::<Seq<u8>, PidErrorView>(
            PidErrorView::InvalidSize { size: bytes.len() },
        ),
{
}

} // verus!
