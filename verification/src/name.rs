//! Human-readable names and asset tickers: one grammar for both.
//!
//! ASCII lowercase, digits and hyphen, and nothing else: two strings a person
//! cannot tell apart must not be two different state keys. A name that breaks
//! the grammar is rejected, never normalised.

use vstd::prelude::*;
use vstd::string::StrSliceExecFns;
use vstd::string::StringExecFns;
use vstd::string::StringSliceAdditionalSpecFns;
use vstd::utf8::encode_utf8;
use vstd::utf8::valid_utf8;

use crate::codec::{
    begins_with, lemma_begins_with_prefixed, parse_length, prefixed, varint_bytes, CodecError,
    Decode, Decoder, Encode, Encoder, MAX_BYTES_LEN,
};
use crate::digits::{decimal_string, decimal_text};
use crate::sorted_map::SortKey;
use crate::std_conv::char_string;

verus! {

/// Shortest legal name.
pub const MIN_NAME_LEN: usize = 1;

/// Longest legal name.
pub const MAX_NAME_LEN: usize = 32;

/// Names shorter than this are auctioned rather than first-come, and carry
/// the rent. The rule as written, which makes `marie` premium although the
/// same sentence of the design says it must not be; the contradiction is left
/// visible rather than resolved here.
pub const PREMIUM_NAME_LEN: usize = 6;

/// Why a name was rejected.
#[derive(Debug, Clone, PartialEq, Eq)]
pub enum NameError {
    /// Shorter than [`MIN_NAME_LEN`] or longer than [`MAX_NAME_LEN`] bytes.
    BadLength(usize),
    /// Contains a character outside the grammar.
    BadCharacter(char),
    /// Starts or ends with a hyphen.
    EdgeHyphen,
    /// Contains two hyphens in a row.
    DoubleHyphen,
}

/// A character the grammar allows: `a`–`z`, `0`–`9` or `-`.
pub open spec fn name_char(c: char) -> bool {
    ('a' <= c && c <= 'z') || ('0' <= c && c <= '9') || c == '-'
}

/// The first character outside the grammar, if any.
pub open spec fn first_bad_char(s: Seq<char>) -> Option<char>
    decreases s.len(),
{
    if s.len() == 0 {
        None
    } else if !name_char(s[0]) {
        Some(s[0])
    } else {
        first_bad_char(s.drop_first())
    }
}

/// Whether two hyphens stand next to each other.
pub open spec fn has_double_hyphen(s: Seq<char>) -> bool {
    exists|i: int| 0 <= i < s.len() - 1 && #[trigger] s[i] == '-' && s[i + 1] == '-'
}

/// What validating `text`, of `length` bytes, gives: the first rule it
/// breaks, in the order the rules are checked, or acceptance.
pub open spec fn check_name(text: Seq<char>, length: nat) -> Option<NameError> {
    if length < MIN_NAME_LEN || length > MAX_NAME_LEN {
        Some(NameError::BadLength(length as usize))
    } else if first_bad_char(text) is Some {
        Some(NameError::BadCharacter(first_bad_char(text)->0))
    } else if text[0] == '-' || text.last() == '-' {
        Some(NameError::EdgeHyphen)
    } else if has_double_hyphen(text) {
        Some(NameError::DoubleHyphen)
    } else {
        None
    }
}

/// A validated name or ticker.
#[derive(Debug, PartialEq, Eq, PartialOrd, Ord)]
pub struct Name(String);

impl View for Name {
    type V = Seq<char>;

    closed spec fn view(&self) -> Seq<char> {
        self.0@
    }
}

proof fn lemma_first_bad_char(s: Seq<char>, i: int)
    requires
        0 <= i <= s.len(),
        forall|j: int| 0 <= j < i ==> name_char(#[trigger] s[j]),
    ensures
        first_bad_char(s) == first_bad_char(s.skip(i)),
    decreases i,
{
    if i > 0 {
        assert(s.drop_first().skip(i - 1) =~= s.skip(i));
        assert forall|j: int| 0 <= j < i - 1 implies name_char(#[trigger] s.drop_first()[j]) by {
            assert(s.drop_first()[j] == s[j + 1]);
        }
        assert(name_char(s[0]));
        lemma_first_bad_char(s.drop_first(), i - 1);
    } else {
        assert(s.skip(0) =~= s);
    }
}

proof fn lemma_no_bad_char(s: Seq<char>)
    ensures
        first_bad_char(s) is None <==> forall|j: int| 0 <= j < s.len() ==> name_char(#[trigger] s[j]),
    decreases s.len(),
{
    if s.len() > 0 {
        lemma_no_bad_char(s.drop_first());
        if first_bad_char(s) is None {
            assert forall|j: int| 0 <= j < s.len() implies name_char(#[trigger] s[j]) by {
                if j > 0 {
                    assert(s[j] == s.drop_first()[j - 1]);
                }
            }
        }
    }
}

/// A name in the grammar is ASCII, so its byte length is its length.
proof fn lemma_name_bytes(s: Seq<char>)
    requires
        forall|j: int| 0 <= j < s.len() ==> name_char(#[trigger] s[j]),
    ensures
        encode_utf8(s).len() == s.len(),
    decreases s.len(),
{
    if s.len() > 0 {
        assert forall|j: int| 0 <= j < s.drop_first().len() implies name_char(
            #[trigger] s.drop_first()[j],
        ) by {
            assert(s.drop_first()[j] == s[j + 1]);
        }
        lemma_name_bytes(s.drop_first());
        assert(name_char(s[0]));
        assert(vstd::utf8::has_width_1_encoding(s[0] as u32));
    }
}

/// The first character outside the grammar is a character of the string.
proof fn lemma_first_bad_char_found(s: Seq<char>)
    ensures
        first_bad_char(s) matches Some(c) ==> s.contains(c) && !name_char(c),
    decreases s.len(),
{
    if s.len() > 0 && name_char(s[0]) {
        lemma_first_bad_char_found(s.drop_first());
        match first_bad_char(s.drop_first()) {
            Some(c) => {
                let i = choose|i: int| 0 <= i < s.drop_first().len() && s.drop_first()[i] == c;
                assert(s[i + 1] == c);
            },
            None => {},
        }
    } else if s.len() > 0 {
        assert(s[0] == s[0]);
    }
}

/// The grammar of names and tickers: validation accepts a string exactly
/// when it has 1 to 32 characters, each of them a letter `a` to `z`, a digit
/// `0` to `9` or a hyphen, with no hyphen at either end and no two hyphens in
/// a row. A character it refuses is one of the string's and lies outside
/// those ranges.
pub proof fn lemma_name_grammar(text: Seq<char>)
    ensures
        check_name(text, encode_utf8(text).len()) is None <==> {
            &&& 1 <= text.len() <= 32
            &&& forall|i: int|
                0 <= i < text.len() ==> ('a' <= #[trigger] text[i] && text[i] <= 'z') || ('0'
                    <= text[i] && text[i] <= '9') || text[i] == '-'
            &&& text[0] != '-'
            &&& text[text.len() - 1] != '-'
            &&& forall|i: int|
                0 <= i < text.len() - 1 ==> !(#[trigger] text[i] == '-' && text[i + 1] == '-')
        },
        check_name(text, encode_utf8(text).len()) matches Some(NameError::BadCharacter(c))
            ==> text.contains(c) && !(('a' <= c && c <= 'z') || ('0' <= c && c <= '9') || c
            == '-'),
{
    lemma_no_bad_char(text);
    lemma_first_bad_char_found(text);
    if forall|j: int| 0 <= j < text.len() ==> name_char(#[trigger] text[j]) {
        lemma_name_bytes(text);
    }
}

impl Name {
    /// The name's characters satisfy the grammar.
    #[verifier::type_invariant]
    closed spec fn valid(self) -> bool {
        check_name(self.0@, self.0@.len()) is None
    }

    /// Validates a name. Never normalises.
    pub fn new(text: &str) -> (result: Result<Self, NameError>)
        ensures
            match check_name(text@, text.len() as nat) {
                Some(error) => result == Err::<Self, NameError>(error),
                None => result matches Ok(name) && name@ == text@,
            },
            result is Ok <==> {
                &&& 1 <= text@.len() <= 32
                &&& forall|i: int|
                    0 <= i < text@.len() ==> ('a' <= #[trigger] text@[i] && text@[i] <= 'z') || ('0'
                        <= text@[i] && text@[i] <= '9') || text@[i] == '-'
                &&& text@[0] != '-'
                &&& text@[text@.len() - 1] != '-'
                &&& forall|i: int|
                    0 <= i < text@.len() - 1 ==> !(#[trigger] text@[i] == '-' && text@[i + 1] == '-')
            },
            result matches Ok(name) ==> name@ == text@,
            result matches Err(NameError::BadCharacter(c)) ==> text@.contains(c) && !(('a' <= c
                && c <= 'z') || ('0' <= c && c <= '9') || c == '-'),
    {
        proof {
            lemma_name_grammar(text@);
        }
        let length = text.len();
        if length < MIN_NAME_LEN || length > MAX_NAME_LEN {
            return Err(NameError::BadLength(length));
        }
        let count = text.unicode_len();
        let mut index: usize = 0;
        while index < count
            invariant
                count == text@.len(),
                index <= count,
                MIN_NAME_LEN <= text.len() <= MAX_NAME_LEN,
                forall|j: int| 0 <= j < index ==> name_char(#[trigger] text@[j]),
            decreases count - index,
        {
            let character = text.get_char(index);
            let ok = ('a' <= character && character <= 'z') || ('0' <= character && character
                <= '9') || character == '-';
            if !ok {
                proof {
                    lemma_first_bad_char(text@, index as int);
                    assert(text@.skip(index as int)[0] == character);
                    assert(first_bad_char(text@.skip(index as int)) == Some(character));
                    assert(first_bad_char(text@) == Some(character));
                }
                return Err(NameError::BadCharacter(character));
            }
            index = index + 1;
        }
        proof {
            lemma_no_bad_char(text@);
            lemma_name_bytes(text@);
        }
        if text.get_char(0) == '-' || text.get_char(count - 1) == '-' {
            return Err(NameError::EdgeHyphen);
        }
        let mut position: usize = 0;
        while position + 1 < count
            invariant
                count == text@.len(),
                count >= 1,
                MIN_NAME_LEN <= text.len() <= MAX_NAME_LEN,
                first_bad_char(text@) is None,
                text@[0] != '-' && text@.last() != '-',
                position + 1 <= count,
                forall|j: int| 0 <= j < position ==> !(#[trigger] text@[j] == '-' && text@[j + 1]
                    == '-'),
            decreases count - position,
        {
            if text.get_char(position) == '-' && text.get_char(position + 1) == '-' {
                proof {
                    assert(text@[position as int] == '-' && text@[position + 1] == '-');
                    assert(has_double_hyphen(text@));
                }
                return Err(NameError::DoubleHyphen);
            }
            position = position + 1;
        }
        proof {
            assert(text.len() as nat == text@.len());
        }
        let name = Name(text.to_owned());
        Ok(name)
    }

    /// The name.
    pub fn as_str(&self) -> (text: &str)
        ensures
            text@ == self@,
    {
        self.0.as_str()
    }

    /// Whether this name falls in the premium range and is therefore
    /// auctioned and subject to rent.
    pub fn is_premium(&self) -> (premium: bool)
        ensures
            premium == (self@.len() < PREMIUM_NAME_LEN),
    {
        proof {
            use_type_invariant(self);
            lemma_no_bad_char(self@);
            lemma_name_bytes(self@);
        }
        self.0.as_str().len() < PREMIUM_NAME_LEN
    }
}

impl Clone for Name {
    fn clone(&self) -> (copy: Self)
        ensures
            copy == *self,
    {
        proof {
            use_type_invariant(self);
        }
        Name(self.0.clone())
    }
}

impl Encode for Name {
    open spec fn spec_encode(&self) -> Seq<u8> {
        prefixed(encode_utf8(self@))
    }

    fn encode(&self, out: &mut Encoder) {
        out.write_str(self.0.as_str());
    }
}

impl Decode for Name {
    /// A name in the grammar.
    open spec fn decodable(&self, level: nat) -> bool {
        check_name(self@, self@.len()) is None
    }

    fn decode(input: &mut Decoder<'_>) -> (result: Result<Self, CodecError>) {
        proof {
            assert forall|v: Name| #[trigger]
                v.decodable(input.level()) && begins_with(input.rest(), v) implies ({
                let bytes = encode_utf8(v@);
                let n = varint_bytes(bytes.len()).len();
                &&& parse_length(input.rest(), "byte string length", MAX_BYTES_LEN) == Ok::<
                    (nat, nat),
                    CodecError,
                >((bytes.len(), n))
                &&& input.rest().subrange(n as int, (n + bytes.len()) as int) == bytes
                &&& valid_utf8(bytes)
                &&& bytes.len() == v@.len()
            }) by {
                lemma_no_bad_char(v@);
                lemma_name_bytes(v@);
                lemma_begins_with_prefixed(
                    input.rest(),
                    encode_utf8(v@),
                    "byte string length",
                    MAX_BYTES_LEN,
                );
                vstd::utf8::encode_utf8_valid_utf8(v@);
            }
        }
        let ghost before = *input;
        let text = input.read_str()?;
        proof {
            assert forall|v: Name| #[trigger]
                v.decodable(before.level()) && begins_with(before.rest(), v) implies text@ == v@
                && check_name(text@, text.len() as nat) is None by {
                vstd::utf8::encode_utf8_decode_utf8(text@);
                vstd::utf8::encode_utf8_decode_utf8(v@);
            }
        }
        match Name::new(text) {
            Ok(name) => Ok(name),
            Err(_) => Err(CodecError::Invalid { reason: "not a valid name" }),
        }
    }
}

impl SortKey for Name {
    open spec fn sort_key(&self) -> Seq<u8> {
        encode_utf8(self@)
    }

    fn sort_bytes(&self) -> (bytes: Vec<u8>) {
        vstd::slice::slice_to_vec(self.0.as_str().as_bytes())
    }
}

/// How a name error reads.
pub open spec fn name_error_text(error: NameError) -> Seq<char> {
    match error {
        NameError::BadLength(length) => "a name is "@ + decimal_text(MIN_NAME_LEN as nat) + " to "@
            + decimal_text(MAX_NAME_LEN as nat) + " characters, got "@ + decimal_text(length as nat),
        NameError::BadCharacter(character) => "'"@ + seq![character]
            + "' is not allowed; names use a-z, 0-9 and '-'"@,
        NameError::EdgeHyphen => "a name may not start or end with '-'"@,
        NameError::DoubleHyphen => "a name may not contain '--'"@,
    }
}

impl NameError {
    /// The error as it is displayed.
    pub fn to_string(&self) -> (text: String)
        ensures
            text@ == name_error_text(*self),
    {
        match self {
            NameError::BadLength(length) => {
                let mut text = String::from_str("a name is ");
                text.append(decimal_string(MIN_NAME_LEN as u64).as_str());
                text.append(" to ");
                text.append(decimal_string(MAX_NAME_LEN as u64).as_str());
                text.append(" characters, got ");
                text.append(decimal_string(*length as u64).as_str());
                text
            },
            NameError::BadCharacter(character) => {
                let mut text = String::from_str("'");
                text.append(char_string(*character).as_str());
                text.append("' is not allowed; names use a-z, 0-9 and '-'");
                text
            },
            NameError::EdgeHyphen => String::from_str("a name may not start or end with '-'"),
            NameError::DoubleHyphen => String::from_str("a name may not contain '--'"),
        }
    }
}

impl Name {
    /// The name as it is displayed: its text.
    pub fn to_string(&self) -> (text: String)
        ensures
            text@ == self@,
    {
        String::from_str(self.0.as_str())
    }
}

} // verus!
