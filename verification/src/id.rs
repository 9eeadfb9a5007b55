//! Stable identifiers for declared elements.
//!
//! An identifier is a hash of the key that an element is declared under,
//! taken together with the identifier of the element's parent. It depends on
//! nothing else, so the element that a frame declares under a key is the one
//! that the next frame declares under the same key.

use vstd::prelude::*;
use vstd::string::{StrSliceExecFns, StringExecFns};

verus! {

/// The value of `fxhash::hash64` on a string key, on the target at hand.
pub uninterp spec fn fx_hash64_key(key: Seq<char>) -> u64;

/// The value of `fxhash::hash64` on the pair of a parent's number and a
/// string key, on the target at hand.
pub uninterp spec fn fx_hash64_child(parent: u64, key: Seq<char>) -> u64;

/// Calls `fxhash::hash64` on `key`.
///
/// `hash64` starts from a hasher whose state is zero, feeds it the key
/// through the key's `Hash` impl and returns the state. It has no seed and
/// keeps nothing between calls, so its value is a function of the key
/// alone. (It reads the key's bytes in the byte order of the target, so the
/// function is that of one target; identifiers are made and compared within
/// one run of the program.) The contract gives the value its name and
/// claims nothing else of it: not that two keys have different values.
#[verifier::external_body]
fn hash_key(key: &str) -> (hash: u64)
    ensures
        hash == fx_hash64_key(key@),
{
    fxhash::hash64(key)
}

/// Calls `fxhash::hash64` on the pair `(parent, key)`.
///
/// This is `hash64` at another type, so its value has a name of its own.
/// As for a lone key, the value is a function of the pair alone; the
/// contract gives it its name and claims nothing else of it.
#[verifier::external_body]
fn hash_child(parent: u64, key: &str) -> (hash: u64)
    ensures
        hash == fx_hash64_child(parent, key@),
{
    fxhash::hash64(&(parent, key))
}

/// The identifier of an element.
#[derive(Debug, Clone, Copy, PartialEq, Eq, Structural)]
pub struct Id(pub u64);

/// The name under which a host element's dataset carries its identifier.
pub const DATA_KEY: &'static str = "__domi_id";

impl Id {
    /// The identifier of a top-level element declared under `key`.
    pub open spec fn root(key: Seq<char>) -> Id {
        Id(fx_hash64_key(key))
    }

    /// The identifier of the child of `self` declared under `key`.
    pub open spec fn child(self, key: Seq<char>) -> Id {
        Id(fx_hash64_child(self.0, key))
    }

    /// The identifier of the element declared under `key` below `parent`,
    /// or at the top level where there is no parent.
    pub open spec fn combine(parent: Option<Id>, key: Seq<char>) -> Id {
        match parent {
            Some(parent) => parent.child(key),
            None => Id::root(key),
        }
    }

    /// Derives the identifier of a top-level element from its key.
    pub fn new(source: &str) -> (id: Id)
        ensures
            id == Id::root(source@),
    {
        Id(hash_key(source))
    }

    /// Derives the identifier of a child from this identifier and the
    /// child's key.
    pub fn with(self, source: &str) -> (id: Id)
        ensures
            id == self.child(source@),
    {
        Id(hash_child(self.0, source))
    }
}

/// Identifiers are a function of the parent and the key: equal parents and
/// equal keys give equal identifiers, however often and wherever they are
/// derived.
pub proof fn lemma_combine_deterministic(
    parent1: Option<Id>,
    key1: Seq<char>,
    parent2: Option<Id>,
    key2: Seq<char>,
)
    requires
        parent1 == parent2,
        key1 == key2,
    ensures
        Id::combine(parent1, key1) == Id::combine(parent2, key2),
{
}

/// The state of a [`PassthroughHasher`] that was `state` and then took in
/// `bytes`: each byte moves the state up by eight bits and takes the room.
pub open spec fn shifted_in(state: u64, bytes: Seq<u8>) -> u64
    decreases bytes.len(),
{
    if bytes.len() == 0 {
        state
    } else {
        (shifted_in(state, bytes.drop_last()) << 8) | (bytes.last() as u64)
    }
}

/// A hasher for maps whose keys are identifiers. Identifiers are hashes
/// already, so there is no reason to hash them again: the hasher hands the
/// number through.
#[derive(Debug, Clone, Copy, PartialEq, Eq, Structural)]
pub struct PassthroughHasher(pub u64);

impl Default for PassthroughHasher {
    /// A hasher that has taken nothing in.
    fn default() -> (hasher: Self)
        ensures
            hasher.0 == 0,
    {
        PassthroughHasher(0)
    }
}

impl PassthroughHasher {
    /// The hash of what was taken in.
    pub fn finish(&self) -> (hash: u64)
        ensures
            hash == self.0,
    {
        self.0
    }

    /// Takes in `bytes`, one after the other.
    pub fn write(&mut self, bytes: &[u8])
        ensures
            final(self).0 == shifted_in(old(self).0, bytes@),
    {
        let mut i: usize = 0;
        assert(bytes@.take(0) =~= Seq::<u8>::empty());
        while i < bytes.len()
            invariant
                i <= bytes.len(),
                self.0 == shifted_in(old(self).0, bytes@.take(i as int)),
            decreases bytes.len() - i,
        {
            let byte = bytes[i];
            proof {
                assert(bytes@.take(i + 1).drop_last() =~= bytes@.take(i as int));
                assert(bytes@.take(i + 1).last() == byte);
            }
            self.0 = (self.0 << 8) | (byte as u64);
            i += 1;
        }
        assert(bytes@.take(bytes.len() as int) =~= bytes@);
    }

    /// Takes in an identifier's number: it becomes the hash.
    pub fn write_u64(&mut self, v: u64)
        ensures
            final(self).0 == v,
    {
        self.0 = v;
    }
}

/// The character that writes the digit `digit`.
pub open spec fn digit_char(digit: nat) -> char {
    if digit == 0 {
        '0'
    } else if digit == 1 {
        '1'
    } else if digit == 2 {
        '2'
    } else if digit == 3 {
        '3'
    } else if digit == 4 {
        '4'
    } else if digit == 5 {
        '5'
    } else if digit == 6 {
        '6'
    } else if digit == 7 {
        '7'
    } else if digit == 8 {
        '8'
    } else {
        '9'
    }
}

/// Whether `c` writes a digit.
pub open spec fn is_digit(c: char) -> bool {
    '0' <= c <= '9'
}

/// The digit that `c` writes.
pub open spec fn digit_value(c: char) -> nat {
    (c as u32 - '0' as u32) as nat
}

/// The decimal numeral of `n`, without leading zeros.
pub open spec fn decimal(n: nat) -> Seq<char>
    decreases n,
{
    if n < 10 {
        seq![digit_char(n)]
    } else {
        decimal(n / 10).push(digit_char(n % 10))
    }
}

/// Whether `digits` is a decimal numeral: one digit at least, and digits
/// only.
pub open spec fn is_decimal(digits: Seq<char>) -> bool {
    &&& digits.len() > 0
    &&& forall|i: int| 0 <= i < digits.len() ==> is_digit(#[trigger] digits[i])
}

/// The number that the digits `digits` write.
pub open spec fn decimal_value(digits: Seq<char>) -> nat
    decreases digits.len(),
{
    if digits.len() == 0 {
        0
    } else {
        decimal_value(digits.drop_last()) * 10 + digit_value(digits.last())
    }
}

/// The digits of a marker: what follows a leading `+`, or all of it.
pub open spec fn marker_digits(marker: Seq<char>) -> Seq<char> {
    if marker.len() > 0 && marker[0] == '+' {
        marker.skip(1)
    } else {
        marker
    }
}

/// The identifier that the marker text `marker` holds: the number that its
/// digits write, where it is a decimal numeral, with or without a `+`
/// before it, of a number that an identifier can hold.
pub open spec fn parse_marker(marker: Seq<char>) -> Option<Id> {
    let digits = marker_digits(marker);
    if is_decimal(digits) && decimal_value(digits) <= u64::MAX {
        Some(Id(decimal_value(digits) as u64))
    } else {
        None
    }
}

/// The numeral of a number is a decimal numeral that writes that number.
pub proof fn lemma_decimal_value(n: nat)
    ensures
        is_decimal(decimal(n)),
        decimal_value(decimal(n)) == n,
        decimal(n)[0] != '+',
    decreases n,
{
    if n < 10 {
        assert(decimal(n).drop_last() =~= Seq::<char>::empty());
        assert(decimal_value(decimal(n).drop_last()) == 0);
    } else {
        lemma_decimal_value(n / 10);
        assert(decimal(n).drop_last() =~= decimal(n / 10));
    }
}

/// The value of a numeral is at least the value of each of its beginnings.
proof fn lemma_decimal_value_grows(digits: Seq<char>, count: int)
    requires
        0 <= count <= digits.len(),
        forall|i: int| 0 <= i < digits.len() ==> is_digit(#[trigger] digits[i]),
    ensures
        decimal_value(digits.take(count)) <= decimal_value(digits),
    decreases digits.len(),
{
    if count < digits.len() {
        assert(digits.drop_last().take(count) =~= digits.take(count));
        lemma_decimal_value_grows(digits.drop_last(), count);
    } else {
        assert(digits.take(count) =~= digits);
    }
}

/// The text of one digit.
fn digit_str(digit: u64) -> (text: &'static str)
    requires
        digit < 10,
    ensures
        text@ == seq![digit_char(digit as nat)],
{
    proof {
        reveal_strlit("0");
        reveal_strlit("1");
        reveal_strlit("2");
        reveal_strlit("3");
        reveal_strlit("4");
        reveal_strlit("5");
        reveal_strlit("6");
        reveal_strlit("7");
        reveal_strlit("8");
        reveal_strlit("9");
    }
    let text = if digit == 0 {
        "0"
    } else if digit == 1 {
        "1"
    } else if digit == 2 {
        "2"
    } else if digit == 3 {
        "3"
    } else if digit == 4 {
        "4"
    } else if digit == 5 {
        "5"
    } else if digit == 6 {
        "6"
    } else if digit == 7 {
        "7"
    } else if digit == 8 {
        "8"
    } else {
        "9"
    };
    assert(text@ =~= seq![digit_char(digit as nat)]);
    text
}

/// Writes `n` as a decimal numeral.
fn decimal_string(n: u64) -> (text: String)
    ensures
        text@ == decimal(n as nat),
    decreases n,
{
    if n < 10 {
        digit_str(n).to_owned()
    } else {
        let mut text = decimal_string(n / 10);
        text.append(digit_str(n % 10));
        assert(text@ =~= decimal(n as nat));
        text
    }
}

impl Id {
    /// The marker text of this identifier: its number as a decimal numeral.
    pub fn to_string(&self) -> (marker: String)
        ensures
            marker@ == decimal(self.0 as nat),
    {
        decimal_string(self.0)
    }

    /// Reads an identifier back from marker text. Text that is no numeral
    /// of an identifier gives `None`.
    pub fn from_marker(marker: &str) -> (id: Option<Id>)
        ensures
            id == parse_marker(marker@),
    {
        let len: usize = marker.unicode_len();
        if len == 0 {
            return None;
        }
        let start: usize = if marker.get_char(0) == '+' {
            1
        } else {
            0
        };
        let ghost digits = marker_digits(marker@);
        assert(digits =~= marker@.skip(start as int));
        if start == len {
            return None;
        }
        let mut value: u64 = 0;
        let mut i: usize = start;
        assert(digits.take(0) =~= Seq::<char>::empty());
        while i < len
            invariant
                start <= i <= len,
                len == marker@.len(),
                digits == marker@.skip(start as int),
                digits == marker_digits(marker@),
                forall|j: int| 0 <= j < i - start ==> is_digit(#[trigger] digits[j]),
                value == decimal_value(digits.take(i - start)),
            decreases len - i,
        {
            let c = marker.get_char(i);
            assert(c == digits[i - start]);
            if c < '0' || c > '9' {
                assert(!is_digit(digits[i - start]));
                return None;
            }
            let digit: u64 = (c as u32 - '0' as u32) as u64;
            proof {
                assert(digits.take(i + 1 - start).drop_last() =~= digits.take(i - start));
                assert(digits.take(i + 1 - start).last() == c);
            }
            if value > (u64::MAX - digit) / 10 {
                proof {
                    if is_decimal(digits) {
                        lemma_decimal_value_grows(digits, i + 1 - start);
                    }
                }
                return None;
            }
            value = value * 10 + digit;
            i += 1;
        }
        assert(digits.take(len - start) =~= digits);
        Some(Id(value))
    }
}

/// An identifier is read back from its own marker text.
pub proof fn lemma_marker_round_trip(id: Id)
    ensures
        parse_marker(decimal(id.0 as nat)) == Some(id),
{
    lemma_decimal_value(id.0 as nat);
}

} // verus!
