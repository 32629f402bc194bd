//! The value model: the tree of decoded bencode terms.

use vstd::prelude::*;
use vstd::slice::slice_to_vec;
use vstd::string::StringExecFns;
use vstd::utf8::decode_utf8;
use vstd::utf8::encode_utf8;
use vstd::utf8::valid_utf8;

verus! {

/// The ASCII marker that opens a dictionary term (`d`).
pub const TOKEN_DICTIONARY: u8 = 100;

/// The ASCII marker that closes a container or an integer term (`e`).
pub const TOKEN_END: u8 = 101;

/// The ASCII marker that opens an integer term (`i`).
pub const TOKEN_INTEGER: u8 = 105;

/// The ASCII marker that opens a list term (`l`).
pub const TOKEN_LIST: u8 = 108;

/// The ASCII separator between a byte string's length and its bytes (`:`).
pub const TOKEN_COLON: u8 = 58;

/// A decoded bencode term.
///
/// A dictionary is kept as an association list in insertion order, with
/// at most one entry per key: the decoder replaces the value in place when
/// a key repeats (last write wins), so re-encoding a decoded tree walks the
/// entries in the order the input presented them.  Keys are required to be
/// valid UTF-8 text, a deliberate restriction of raw bencode.
#[derive(PartialEq, Eq, Debug)]
pub enum BValue {
    Dictionary(Vec<(String, BValue)>),
    List(Vec<BValue>),
    String(Vec<u8>),
    Integer(i64),
}

/// The mathematical shape of a bencode term: the contracts of the decoder
/// and the encoder speak of these values.
pub enum SpecValue {
    Dictionary(Seq<(Seq<char>, SpecValue)>),
    List(Seq<SpecValue>),
    String(Seq<u8>),
    Integer(int),
}

/// The shapes of the elements of a list, in order.
pub open spec fn seq_view(s: Seq<BValue>) -> Seq<SpecValue>
    decreases s,
{
    if s.len() == 0 {
        Seq::empty()
    } else {
        seq![s[0]@] + seq_view(s.drop_first())
    }
}

/// The shapes of the entries of a dictionary, in order.
pub open spec fn entries_view(s: Seq<(String, BValue)>) -> Seq<(Seq<char>, SpecValue)>
    decreases s,
{
    if s.len() == 0 {
        Seq::empty()
    } else {
        seq![(s[0].0@, s[0].1@)] + entries_view(s.drop_first())
    }
}

/// `seq_view` maps the sequence element by element.
pub proof fn lemma_seq_view(s: Seq<BValue>)
    ensures
        seq_view(s).len() == s.len(),
        forall|i: int| 0 <= i < s.len() ==> #[trigger] seq_view(s)[i] == s[i]@,
    decreases s.len(),
{
    if s.len() > 0 {
        lemma_seq_view(s.drop_first());
        assert(seq_view(s) == seq![s[0]@] + seq_view(s.drop_first()));
        assert forall|i: int| 0 <= i < s.len() implies #[trigger] seq_view(s)[i] == s[i]@ by {
            if i > 0 {
                assert(seq_view(s)[i] == seq_view(s.drop_first())[i - 1]);
                assert(s.drop_first()[i - 1] == s[i]);
            }
        }
    }
}

/// `entries_view` maps the entries element by element.
pub proof fn lemma_entries_view(s: Seq<(String, BValue)>)
    ensures
        entries_view(s).len() == s.len(),
        forall|i: int| 0 <= i < s.len() ==> #[trigger] entries_view(s)[i] == (s[i].0@, s[i].1@),
    decreases s.len(),
{
    if s.len() > 0 {
        lemma_entries_view(s.drop_first());
        assert(entries_view(s) == seq![(s[0].0@, s[0].1@)] + entries_view(s.drop_first()));
        assert forall|i: int| 0 <= i < s.len() implies #[trigger] entries_view(s)[i] == (
            s[i].0@,
            s[i].1@,
        ) by {
            if i > 0 {
                assert(entries_view(s)[i] == entries_view(s.drop_first())[i - 1]);
                assert(s.drop_first()[i - 1] == s[i]);
            }
        }
    }
}

/// Whether every key position differs from every other.
pub open spec fn distinct_keys(entries: Seq<(Seq<char>, SpecValue)>) -> bool {
    forall|i: int, j: int|
        0 <= i < j < entries.len() ==> (#[trigger] entries[i].0) != (#[trigger] entries[j].0)
}

/// Whether the decoder itself could have produced the tree: integers fit
/// 64 bits, byte and key lengths fit the machine, and the keys of every
/// dictionary are distinct.
pub open spec fn producible(v: SpecValue) -> bool
    decreases v,
{
    match v {
        SpecValue::Dictionary(entries) => {
            &&& distinct_keys(entries)
            &&& forall|i: int| 0 <= i < entries.len() ==> producible((#[trigger] entries[i]).1)
            &&& forall|i: int|
                0 <= i < entries.len() ==> encode_utf8((#[trigger] entries[i]).0).len()
                    <= usize::MAX
        },
        SpecValue::List(items) => forall|i: int|
            0 <= i < items.len() ==> producible(#[trigger] items[i]),
        SpecValue::String(bytes) => bytes.len() <= usize::MAX,
        SpecValue::Integer(i) => i64::MIN <= i <= i64::MAX,
    }
}

impl View for BValue {
    type V = SpecValue;

    open spec fn view(&self) -> SpecValue
        decreases self,
    {
        match self {
            BValue::Dictionary(entries) => SpecValue::Dictionary(entries_view(entries@)),
            BValue::List(items) => SpecValue::List(seq_view(items@)),
            BValue::String(bytes) => SpecValue::String(bytes@),
            BValue::Integer(integer) => SpecValue::Integer(*integer as int),
        }
    }
}

impl Clone for BValue {
    /// A deep copy: the copy has the same shape as the original.
    #[verifier::loop_isolation(false)]
    fn clone(&self) -> (res: Self)
        ensures
            res@ == self@,
        decreases self,
    {
        match self {
            BValue::Dictionary(entries) => {
                let mut copy: Vec<(String, BValue)> = Vec::new();
                let mut i: usize = 0;
                while i < entries.len()
                    invariant
                        0 <= i <= entries@.len(),
                        copy@.len() == i,
                        forall|k: int|
                            0 <= k < i ==> (#[trigger] copy@[k]).0 == entries@[k].0
                                && copy@[k].1@ == entries@[k].1@,
                    decreases entries@.len() - i,
                {
                    let pair = (entries[i].0.clone(), entries[i].1.clone());
                    copy.push(pair);
                    i = i + 1;
                }
                proof {
                    lemma_entries_view(copy@);
                    lemma_entries_view(entries@);
                    assert(entries_view(copy@) =~= entries_view(entries@));
                }
                BValue::Dictionary(copy)
            },
            BValue::List(items) => {
                let mut copy: Vec<BValue> = Vec::new();
                let mut i: usize = 0;
                while i < items.len()
                    invariant
                        0 <= i <= items@.len(),
                        copy@.len() == i,
                        forall|k: int| 0 <= k < i ==> (#[trigger] copy@[k])@ == items@[k]@,
                    decreases items@.len() - i,
                {
                    copy.push(items[i].clone());
                    i = i + 1;
                }
                proof {
                    lemma_seq_view(copy@);
                    lemma_seq_view(items@);
                    assert(seq_view(copy@) =~= seq_view(items@));
                }
                BValue::List(copy)
            },
            BValue::String(bytes) => BValue::String(slice_to_vec(bytes.as_slice())),
            BValue::Integer(integer) => BValue::Integer(*integer),
        }
    }
}

impl BValue {
    /// Unwraps a dictionary into its entries; any other variant is refused.
    pub fn as_dictionary(self) -> (r: Result<Vec<(String, BValue)>, String>)
        ensures
            self is Dictionary ==> (r matches Ok(entries) && self == BValue::Dictionary(entries)),
            !(self is Dictionary) ==> (r matches Err(e) && e@ == "BValue is not a dictionnary"@),
    {
        match self {
            BValue::Dictionary(map) => Ok(map),
            _ => Err(String::from_str("BValue is not a dictionnary")),
        }
    }

    /// Unwraps a list into its elements; any other variant is refused.
    pub fn as_list(self) -> (r: Result<Vec<BValue>, String>)
        ensures
            self is List ==> (r matches Ok(list) && self == BValue::List(list)),
            !(self is List) ==> (r matches Err(e) && e@ == "BValue is not a list"@),
    {
        match self {
            BValue::List(list) => Ok(list),
            _ => Err(String::from_str("BValue is not a list")),
        }
    }

    /// Unwraps a byte string into its bytes; any other variant is refused.
    pub fn as_bytes(self) -> (r: Result<Vec<u8>, String>)
        ensures
            self is String ==> (r matches Ok(bytes) && self == BValue::String(bytes)),
            !(self is String) ==> (r matches Err(e) && e@ == "BValue is not a byte string"@),
    {
        match self {
            BValue::String(bytes) => Ok(bytes),
            _ => Err(String::from_str("BValue is not a byte string")),
        }
    }

    /// Unwraps a byte string and converts it to UTF-8 text; a byte string
    /// that is not valid UTF-8 is refused distinctly from a non-string.
    pub fn as_string(self) -> (r: Result<String, String>)
        ensures
            match self {
                BValue::String(bytes) => {
                    &&& valid_utf8(bytes@) ==> (r matches Ok(s) && s@ == decode_utf8(bytes@))
                    &&& !valid_utf8(bytes@) ==> (r matches Err(e) && e@
                        == "BValue byte string is not convertible to utf8"@)
                },
                _ => (r matches Err(e) && e@ == "BValue is not a byte string"@),
            },
    {
        match self.as_bytes() {
            Ok(bytes) => match string_from_utf8(bytes) {
                Some(string) => Ok(string),
                None => Err(String::from_str("BValue byte string is not convertible to utf8")),
            },
            Err(e) => Err(e),
        }
    }

    /// Unwraps an integer; any other variant is refused.
    pub fn as_integer(self) -> (r: Result<i64, String>)
        ensures
            self matches BValue::Integer(integer) ==> r == Ok::<i64, String>(integer),
            !(self is Integer) ==> (r matches Err(e) && e@ == "BValue is not an integer"@),
    {
        match self {
            BValue::Integer(integer) => Ok(integer),
            _ => Err(String::from_str("BValue is not an integer")),
        }
    }
}

/// Relies on `String::from_utf8`: it returns `Ok` exactly when the bytes are
/// a valid UTF-8 encoding, and the returned string's characters are then the
/// scalar values decoded from those bytes, as `vstd::utf8` defines them.
#[verifier::external_body]
pub(crate) fn string_from_utf8(bytes: Vec<u8>) -> (r: Option<String>)
    ensures
        match r {
            Some(s) => valid_utf8(bytes@) && s@ == decode_utf8(bytes@),
            None => !valid_utf8(bytes@),
        },
{
    std::string::String::from_utf8(bytes).ok()
}

} // verus!
