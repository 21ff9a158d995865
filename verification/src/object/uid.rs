//! The identifier of one value put under a key of an object: the key,
//! and the site and counter of the replica that put it.

use crate::error::Error;
use crate::replica::Replica;
use crate::vlq;
use crate::vlq::{decoded, encoding};
use rustc_serialize::base64::{CharacterSet, Config, FromBase64, Newline, ToBase64};
use vstd::prelude::*;
use vstd::string::StrSliceExecFns;
use vstd::string::StringExecFns;

verus! {

/// The text that rustc-serialize's `ToBase64::to_base64` writes for
/// `bytes` with the standard alphabet, without padding or line breaks.
pub uninterp spec fn standard_base64(bytes: Seq<u8>) -> Seq<char>;

/// What rustc-serialize's `FromBase64::from_base64` reads from `text`:
/// the bytes, or `None` where it reports an error.
pub uninterp spec fn from_standard_base64(text: Seq<char>) -> Option<Seq<u8>>;

/// Calls rustc-serialize's `ToBase64::to_base64` with the standard
/// alphabet, no padding and no line breaks. Claimed of it: the text is
/// `standard_base64(bytes)`; it holds only characters of that alphabet
/// (so no comma); and `FromBase64::from_base64` reads the bytes back.
#[verifier::external_body]
fn encode_standard_base64(bytes: &[u8]) -> (text: String)
    ensures
        text@ == standard_base64(bytes@),
        from_standard_base64(text@) == Some(bytes@),
        forall|i: int| 0 <= i < text@.len() ==> text@[i] != ',',
{
    bytes.to_base64(Config {
        char_set: CharacterSet::Standard,
        newline: Newline::LF,
        pad: false,
        line_length: None,
    })
}

/// Calls rustc-serialize's `FromBase64::from_base64` on `text`. Claimed
/// of it: the result is `from_standard_base64(text)`, an error becoming
/// `None`.
#[verifier::external_body]
fn decode_standard_base64(text: &str) -> (bytes: Option<Vec<u8>>)
    ensures
        match bytes {
            Some(b) => from_standard_base64(text@) == Some(b@),
            None => from_standard_base64(text@) is None,
        },
{
    match text.from_base64() {
        Ok(b) => Some(b),
        Err(_) => None,
    }
}

/// Identifies one value under a key of an object. Two UIDs are equal
/// when their sites and counters are, whatever their keys.
#[derive(Debug)]
pub struct UID {
    pub key: String,
    pub site: u32,
    pub counter: u32,
}

/// The index of the first `c` in `s` at or after `from`, or `s.len()`
/// when there is none.
pub open spec fn index_of(s: Seq<char>, c: char, from: int) -> int
    decreases s.len() - from,
{
    if from >= s.len() {
        s.len() as int
    } else if s[from] == c {
        from
    } else {
        index_of(s, c, from + 1)
    }
}

/// The text of a UID: the VLQ bytes of its site and counter in base64,
/// a comma, and its key.
pub open spec fn uid_text(key: Seq<char>, site: u32, counter: u32) -> Seq<char> {
    standard_base64(encoding(site as nat) + encoding(counter as nat)) + seq![','] + key
}

/// What `from_str` reads from a text: the key (between the first comma
/// and the next one, or the end), the site and the counter.
pub open spec fn parse_uid(s: Seq<char>) -> Result<(Seq<char>, u32, u32), Error> {
    let i = index_of(s, ',', 0);
    if i >= s.len() {
        Err(Error::DeserializeObjectUID)
    } else {
        let j = index_of(s, ',', i + 1);
        match from_standard_base64(s.subrange(0, i)) {
            None => Err(Error::DeserializeObjectUID),
            Some(bytes) => match decoded(bytes, 0) {
                Err(e) => Err(e),
                Ok((site, next)) => match decoded(bytes, next as int) {
                    Err(e) => Err(e),
                    Ok((counter, _)) => Ok((s.subrange(i + 1, j), site, counter)),
                },
            },
        }
    }
}

impl Clone for UID {
    fn clone(&self) -> (u: Self)
        ensures
            u.key@ == self.key@,
            u.site == self.site,
            u.counter == self.counter,
    {
        UID { key: self.key.clone(), site: self.site, counter: self.counter }
    }
}

impl PartialEq for UID {
    fn eq(&self, other: &UID) -> (b: bool) {
        self.site == other.site && self.counter == other.counter
    }
}

impl vstd::std_specs::cmp::PartialEqSpecImpl for UID {
    open spec fn obeys_eq_spec() -> bool {
        true
    }

    open spec fn eq_spec(&self, other: &UID) -> bool {
        self.site == other.site && self.counter == other.counter
    }
}

impl Eq for UID {}

impl UID {
    /// Constructs the UID of a value put under `key` by `replica`.
    pub fn new(key: &str, replica: &Replica) -> (u: UID)
        ensures
            u.key@ == key@,
            u.site == replica.site,
            u.counter == replica.counter,
    {
        UID { key: key.to_owned(), site: replica.site, counter: replica.counter }
    }

    /// Orders UIDs by site, then by counter; the key plays no part.
    pub fn cmp(&self, other: &UID) -> (o: std::cmp::Ordering)
        ensures
            o == (if self.site < other.site || (self.site == other.site && self.counter < other.counter) {
                std::cmp::Ordering::Less
            } else if self.site == other.site && self.counter == other.counter {
                std::cmp::Ordering::Equal
            } else {
                std::cmp::Ordering::Greater
            }),
    {
        if self.site < other.site {
            std::cmp::Ordering::Less
        } else if self.site == other.site && self.counter < other.counter {
            std::cmp::Ordering::Less
        } else if self.site == other.site && self.counter == other.counter {
            std::cmp::Ordering::Equal
        } else {
            std::cmp::Ordering::Greater
        }
    }

    /// Writes the UID as text: the VLQ bytes of its site and counter in
    /// base64, a comma, and the key. When the key holds no comma,
    /// `from_str` reads the same UID back.
    pub fn to_string(&self) -> (s: String)
        ensures
            s@ == uid_text(self.key@, self.site, self.counter),
            !self.key@.contains(',') ==> parse_uid(s@) == Ok::<(Seq<char>, u32, u32), Error>((self.key@, self.site, self.counter)),
    {
        let mut bytes = vlq::encode_u32(self.site);
        let mut counter_bytes = vlq::encode_u32(self.counter);
        bytes.append(&mut counter_bytes);
        let mut text = encode_standard_base64(bytes.as_slice());
        let ghost encoded = text@;
        let comma = ",";
        proof {
            reveal_strlit(",");
        }
        text.append(comma);
        assert(text@ =~= encoded + seq![',']);
        text.append(self.key.as_str());
        proof {
            lemma_parse_uid_text(encoded, bytes@, self.key@, self.site, self.counter);
        }
        text
    }

    /// Reads a UID from the text that `to_string` writes.
    pub fn from_str(s: &str) -> (r: Result<UID, Error>)
        ensures
            match r {
                Ok(u) => parse_uid(s@) == Ok::<(Seq<char>, u32, u32), Error>((u.key@, u.site, u.counter)),
                Err(e) => parse_uid(s@) == Err::<(Seq<char>, u32, u32), Error>(e),
            },
    {
        let n = s.unicode_len();
        let i = find_char(s, ',', 0);
        if i >= n {
            return Err(Error::DeserializeObjectUID);
        }
        let j = find_char(s, ',', i + 1);
        let encoded = s.substring_char(0, i);
        let key = s.substring_char(i + 1, j);
        let bytes = match decode_standard_base64(encoded) {
            Some(b) => b,
            None => return Err(Error::DeserializeObjectUID),
        };
        let (site, next) = match vlq::decode_u32(bytes.as_slice(), 0) {
            Ok(p) => p,
            Err(e) => return Err(e),
        };
        let (counter, _) = match vlq::decode_u32(bytes.as_slice(), next) {
            Ok(p) => p,
            Err(e) => return Err(e),
        };
        Ok(UID { key: key.to_owned(), site: site, counter: counter })
    }
}

/// The index of the first `c` in `s` at or after `from`, or the number
/// of characters of `s` when there is none.
fn find_char(s: &str, c: char, from: usize) -> (i: usize)
    requires
        from <= s@.len(),
    ensures
        i as int == index_of(s@, c, from as int),
        from <= i <= s@.len(),
{
    let n = s.unicode_len();
    let mut i = from;
    while i < n
        invariant
            from <= i <= n,
            n == s@.len(),
            index_of(s@, c, from as int) == index_of(s@, c, i as int),
        decreases n - i,
    {
        if s.get_char(i) == c {
            return i;
        }
        i = i + 1;
    }
    i
}

/// The index of a character that occurs nowhere after `from` is the end.
proof fn lemma_index_of_absent(s: Seq<char>, c: char, from: int)
    requires
        0 <= from,
        forall|k: int| from <= k < s.len() ==> s[k] != c,
    ensures
        index_of(s, c, from) == s.len() as int,
    decreases s.len() - from,
{
    if from < s.len() {
        lemma_index_of_absent(s, c, from + 1);
    }
}

proof fn lemma_parse_uid_text(encoded: Seq<char>, bytes: Seq<u8>, key: Seq<char>, site: u32, counter: u32)
    requires
        bytes == encoding(site as nat) + encoding(counter as nat),
        encoded == standard_base64(bytes),
        from_standard_base64(encoded) == Some(bytes),
        forall|i: int| 0 <= i < encoded.len() ==> encoded[i] != ',',
    ensures
        !key.contains(',') ==> parse_uid(encoded + seq![','] + key) == Ok::<(Seq<char>, u32, u32), Error>((key, site, counter)),
{
    if !key.contains(',') {
        let s = encoded + seq![','] + key;
        let e = encoded.len() as int;
        assert forall|k: int| 0 <= k < e implies s[k] != ',' by {
            assert(s[k] == encoded[k]);
        }
        assert(s[e] == ',');
        lemma_index_of_first(s, ',', 0, e);
        assert forall|k: int| e + 1 <= k < s.len() implies s[k] != ',' by {
            assert(s[k] == key[k - e - 1]);
        }
        lemma_index_of_absent(s, ',', e + 1);
        assert(s.subrange(0, e) =~= encoded);
        assert(s.subrange(e + 1, s.len() as int) =~= key);
        assert(index_of(s, ',', 0) == e);
        assert(index_of(s, ',', e + 1) == s.len());
        vlq::lemma_decode_encoding(Seq::empty(), site, encoding(counter as nat));
        assert(Seq::<u8>::empty() + encoding(site as nat) + encoding(counter as nat) =~= bytes);
        vlq::lemma_encoding_len(site);
        let next = encoding(site as nat).len() as usize;
        assert(decoded(bytes, 0) == Ok::<(u32, usize), Error>((site, next)));
        vlq::lemma_decode_encoding(encoding(site as nat), counter, Seq::empty());
        assert(encoding(site as nat) + encoding(counter as nat) + Seq::<u8>::empty() =~= bytes);
        assert(decoded(bytes, next as int) is Ok);
        assert(decoded(bytes, next as int)->Ok_0.0 == counter);
    }
}

/// When the first `c` at or after `from` stands at `at`, that is where
/// `index_of` finds it.
proof fn lemma_index_of_first(s: Seq<char>, c: char, from: int, at: int)
    requires
        0 <= from <= at < s.len(),
        s[at] == c,
        forall|k: int| from <= k < at ==> s[k] != c,
    ensures
        index_of(s, c, from) == at,
    decreases at - from,
{
    if from < at {
        lemma_index_of_first(s, c, from + 1, at);
    }
}

} // verus!
