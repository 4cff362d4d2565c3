//! Soundex phonetic codes: a letter followed by three digits.

use vstd::prelude::*;
use vstd::string::StringSliceAdditionalSpecFns;

verus! {

/// ASCII `a`.
pub const LOWER_A: u8 = 97;

/// ASCII `z`.
pub const LOWER_Z: u8 = 122;

/// ASCII `A`.
pub const UPPER_A: u8 = 65;

/// ASCII `Z`.
pub const UPPER_Z: u8 = 90;

/// ASCII `H`.
pub const UPPER_H: u8 = 72;

/// ASCII `W`.
pub const UPPER_W: u8 = 87;

/// ASCII `0`: the class of the letters that carry no code, and the padding.
pub const DIGIT_ZERO: u8 = 48;

/// Phonetic class of each upper-case letter, `A` to `Z`, as an ASCII digit:
/// `01230120022455012623010202`.
pub const SOUNDEX_MAP: [u8; 26] = [
    48, 49, 50, 51, 48, 49, 50, 48, 48, 50, 50, 52, 53, 53, 48, 49, 50, 54, 50, 51, 48, 49, 48,
    50, 48, 50,
];

/// An ASCII letter.
pub open spec fn is_letter(c: u8) -> bool {
    (LOWER_A <= c && c <= LOWER_Z) || (UPPER_A <= c && c <= UPPER_Z)
}

/// `c` in upper case, where it is a lower-case ASCII letter.
pub open spec fn upper(c: u8) -> u8 {
    if LOWER_A <= c && c <= LOWER_Z {
        (c - LOWER_A + UPPER_A) as u8
    } else {
        c
    }
}

/// Phonetic class of the upper-case letter `c`.
pub open spec fn class_of(c: u8) -> u8
    recommends
        UPPER_A <= c <= UPPER_Z,
{
    SOUNDEX_MAP@[c - UPPER_A]
}

/// What the encoder has seen so far: the first letter, the class that the
/// next digit is compared with, and the digits emitted.
pub type EncodeState = (Option<u8>, u8, Seq<u8>);

/// One byte of input. Bytes that are not letters are ignored. The first
/// letter is kept and sets the class to compare with. After it, `H` and `W`
/// are skipped, as is a letter of class `0` or of the class last emitted,
/// and as is every letter once three digits are out; any other letter emits
/// its class.
pub open spec fn encode_step(st: EncodeState, c: u8) -> EncodeState {
    if !is_letter(c) {
        st
    } else {
        let u = upper(c);
        match st.0 {
            None => (Some(u), class_of(u), Seq::empty()),
            Some(f) => {
                let d = class_of(u);
                if st.2.len() >= 3 || u == UPPER_H || u == UPPER_W || d == DIGIT_ZERO || d == st.1 {
                    st
                } else {
                    (st.0, d, st.2.push(d))
                }
            },
        }
    }
}

/// State after the first `n` bytes of `s`.
pub open spec fn encode_prefix(s: Seq<u8>, n: int) -> EncodeState
    decreases n,
{
    if n <= 0 {
        (None, DIGIT_ZERO, Seq::empty())
    } else {
        encode_step(encode_prefix(s, n - 1), s[n - 1])
    }
}

/// The `k`-th digit, or `0` where fewer were emitted.
pub open spec fn digit_or_pad(digits: Seq<u8>, k: int) -> u8 {
    if k < digits.len() {
        digits[k]
    } else {
        DIGIT_ZERO
    }
}

/// The Soundex code of `s`: none when `s` holds no letter.
pub open spec fn soundex_code(s: Seq<u8>) -> Option<Seq<u8>> {
    let st = encode_prefix(s, s.len() as int);
    match st.0 {
        None => None,
        Some(f) => Some(
            seq![f, digit_or_pad(st.2, 0), digit_or_pad(st.2, 1), digit_or_pad(st.2, 2)],
        ),
    }
}

/// The first letter of `s` from position `k` on.
pub open spec fn first_letter_from(s: Seq<u8>, k: int) -> Option<u8>
    decreases s.len() - k,
{
    if k < 0 || k >= s.len() {
        None
    } else if is_letter(s[k]) {
        Some(s[k])
    } else {
        first_letter_from(s, k + 1)
    }
}

/// Whether `c` is an ASCII letter.
fn is_alphabetic(c: u8) -> (r: bool)
    ensures
        r == is_letter(c),
{
    (LOWER_A <= c && c <= LOWER_Z) || (UPPER_A <= c && c <= UPPER_Z)
}

/// `c` in upper case, where it is a lower-case ASCII letter.
fn to_uppercase(c: u8) -> (r: u8)
    ensures
        r == upper(c),
{
    if LOWER_A <= c && c <= LOWER_Z {
        c - LOWER_A + UPPER_A
    } else {
        c
    }
}

/// Phonetic class of the upper-case letter `c`.
fn map(c: u8) -> (r: u8)
    requires
        UPPER_A <= c <= UPPER_Z,
    ensures
        r == class_of(c),
{
    SOUNDEX_MAP[(c - UPPER_A) as usize]
}

/// Once the first letter and three digits are out, nothing changes.
proof fn lemma_encode_done(s: Seq<u8>, k: int, n: int)
    requires
        0 <= k <= n <= s.len(),
        encode_prefix(s, k).0 is Some,
        encode_prefix(s, k).2.len() >= 3,
    ensures
        encode_prefix(s, n) == encode_prefix(s, k),
    decreases n - k,
{
    if k < n {
        lemma_encode_done(s, k, n - 1);
    }
}

proof fn lemma_no_letter_before(s: Seq<u8>, k: int)
    requires
        0 <= k <= s.len(),
        forall|j: int| 0 <= j < k ==> !is_letter(#[trigger] s[j]),
    ensures
        first_letter_from(s, 0) == first_letter_from(s, k),
    decreases k,
{
    if k > 0 {
        lemma_no_letter_before(s, k - 1);
    }
}

/// Every class in the table is an ASCII digit from `0` to `6`.
proof fn lemma_class_range(c: u8)
    requires
        UPPER_A <= c <= UPPER_Z,
    ensures
        DIGIT_ZERO <= class_of(c) <= DIGIT_ZERO + 6,
{
    let t = SOUNDEX_MAP@;
    assert(t =~= seq![
        48u8, 49, 50, 51, 48, 49, 50, 48, 48, 50, 50, 52, 53, 53, 48, 49, 50, 54, 50, 51, 48, 49,
        48, 50, 48, 50,
    ]);
}

/// After the first `n` bytes: the first letter is kept, in upper case, once
/// one is seen; at most three digits are out, each from `1` to `6`.
proof fn lemma_encode_prefix(s: Seq<u8>, n: int)
    requires
        0 <= n <= s.len(),
    ensures
        encode_prefix(s, n).0 is None ==> forall|j: int| 0 <= j < n ==> !is_letter(#[trigger] s[j]),
        encode_prefix(s, n).0 matches Some(f) ==> first_letter_from(s, 0) matches Some(l) && f
            == upper(l),
        encode_prefix(s, n).2.len() <= 3,
        forall|k: int|
            0 <= k < encode_prefix(s, n).2.len() ==> DIGIT_ZERO < #[trigger] encode_prefix(
                s,
                n,
            ).2[k] <= DIGIT_ZERO + 6,
    decreases n,
{
    if n > 0 {
        lemma_encode_prefix(s, n - 1);
        let prev = encode_prefix(s, n - 1);
        let c = s[n - 1];
        if is_letter(c) {
            lemma_class_range(upper(c));
            if prev.0 is None {
                lemma_no_letter_before(s, n - 1);
            }
        }
    }
}

proof fn lemma_first_letter(s: Seq<u8>, k: int)
    ensures
        first_letter_from(s, k) matches Some(l) ==> is_letter(l),
    decreases s.len() - k,
{
    if 0 <= k < s.len() && !is_letter(s[k]) {
        lemma_first_letter(s, k + 1);
    }
}

/// There is a code exactly when the input holds a letter. A code has four
/// bytes: the first letter of the input in upper case, then three ASCII
/// digits from `0` to `6`.
pub proof fn lemma_code_shape(s: Seq<u8>)
    ensures
        soundex_code(s) is None <==> first_letter_from(s, 0) is None,
        soundex_code(s) matches Some(code) ==> {
            &&& code.len() == 4
            &&& first_letter_from(s, 0) matches Some(l) && code[0] == upper(l)
            &&& UPPER_A <= code[0] <= UPPER_Z
            &&& forall|k: int| 1 <= k < 4 ==> DIGIT_ZERO <= #[trigger] code[k] <= DIGIT_ZERO + 6
        },
{
    lemma_encode_prefix(s, s.len() as int);
    lemma_first_letter(s, 0);
    if encode_prefix(s, s.len() as int).0 is None {
        lemma_no_letter_before(s, s.len() as int);
    }
}

/// The Soundex code of the bytes `b`.
fn soundex(b: &[u8]) -> (r: Option<[u8; 4]>)
    ensures
        r is None <==> soundex_code(b@) is None,
        r matches Some(a) ==> soundex_code(b@) == Some(a@),
{
    if b.len() == 0 {
        return None;
    }
    let mut first: Option<u8> = None;
    let mut last: u8 = DIGIT_ZERO;
    let mut digits: Vec<u8> = Vec::new();
    let mut k: usize = 0;
    while k < b.len() && (first.is_none() || digits.len() < 3)
        invariant
            k <= b@.len(),
            encode_prefix(b@, k as int) == (first, last, digits@),
            first is None ==> digits@.len() == 0,
        decreases b@.len() - k,
    {
        let c = b[k];
        if is_alphabetic(c) {
            let u = to_uppercase(c);
            match first {
                None => {
                    first = Some(u);
                    last = map(u);
                },
                Some(_) => {
                    if digits.len() < 3 && u != UPPER_H && u != UPPER_W {
                        let d = map(u);
                        if d != DIGIT_ZERO && d != last {
                            digits.push(d);
                            last = d;
                        }
                    }
                },
            }
        }
        k = k + 1;
    }
    proof {
        if k < b@.len() {
            lemma_encode_done(b@, k as int, b@.len() as int);
        }
    }
    match first {
        None => None,
        Some(f) => {
            let d0 = if digits.len() > 0 {
                digits[0]
            } else {
                DIGIT_ZERO
            };
            let d1 = if digits.len() > 1 {
                digits[1]
            } else {
                DIGIT_ZERO
            };
            let d2 = if digits.len() > 2 {
                digits[2]
            } else {
                DIGIT_ZERO
            };
            let code = [f, d0, d1, d2];
            assert(code@ =~= seq![f, d0, d1, d2]);
            Some(code)
        },
    }
}

/// A Soundex code: an upper-case letter followed by three digits, or no code
/// at all for an input without letters.
#[derive(Debug, PartialEq, Eq, PartialOrd, Ord, Clone, Copy)]
pub struct Soundex {
    value: Option<[u8; 4]>,
}

/// A Soundex code is a letter and digits, all ASCII.
proof fn lemma_code_ascii(c: Seq<u8>)
    requires
        exists|s: Seq<u8>| soundex_code(s) == Some(c),
    ensures
        forall|k: int| 0 <= k < c.len() ==> c[k] < 128,
{
    let s = choose|s: Seq<u8>| soundex_code(s) == Some(c);
    lemma_code_shape(s);
}

impl View for Soundex {
    type V = Option<Seq<u8>>;

    closed spec fn view(&self) -> Option<Seq<u8>> {
        match self.value {
            None => None,
            Some(a) => Some(a@),
        }
    }
}

impl Soundex {
    /// A code held by a `Soundex` is the code of some input.
    #[verifier::type_invariant]
    spec fn holds_a_code(&self) -> bool {
        self@ matches Some(c) ==> exists|s: Seq<u8>| soundex_code(s) == Some(c)
    }

    /// The Soundex code of `s`.
    pub fn new(s: &str) -> (r: Soundex)
        ensures
            r@ == soundex_code(s.spec_bytes()),
    {
        Soundex { value: soundex(s.as_bytes()) }
    }

    /// The four bytes of the code, if there is one.
    pub fn code(&self) -> (r: Option<[u8; 4]>)
        ensures
            r is None <==> self@ is None,
            r matches Some(a) ==> self@ == Some(a@),
    {
        self.value
    }

    /// The bytes of the code; empty where there is none.
    pub fn as_bytes(&self) -> (r: &[u8])
        ensures
            r@ == match self@ {
                None => Seq::<u8>::empty(),
                Some(c) => c,
            },
    {
        match &self.value {
            Some(v) => v.as_slice(),
            None => &[],
        }
    }
}

/// Relies on `String::from_utf8_lossy`: bytes that are valid UTF-8, here
/// ASCII, come back as the same text, one character per byte.
#[verifier::external_body]
fn ascii_to_string(b: &[u8]) -> (r: String)
    requires
        forall|k: int| 0 <= k < b@.len() ==> b@[k] < 128,
    ensures
        r@ == b@.map_values(|c: u8| c as char),
{
    String::from_utf8_lossy(b).into_owned()
}

impl Soundex {
    /// The code as text: a letter and three digits, or empty where there is
    /// no code.
    pub fn to_string(&self) -> (r: String)
        ensures
            r@ == match self@ {
                None => Seq::<u8>::empty(),
                Some(c) => c,
            }.map_values(|c: u8| c as char),
    {
        let b = self.as_bytes();
        proof {
            use_type_invariant(self);
            if let Some(c) = self@ {
                lemma_code_ascii(c);
            }
        }
        ascii_to_string(b)
    }
}

impl AsRef<[u8]> for Soundex {
    fn as_ref(&self) -> &[u8] {
        self.as_bytes()
    }
}

} // verus!
