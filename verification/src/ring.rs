//! Rings: named groups of peers.

use std::time::Instant;

use vstd::prelude::*;

use crate::error::Error;
use crate::octets;

verus! {

/// Reserved name of the built-in open ring (the public ring): resources associated
/// with this ring are readable by any peer without membership checks.
pub const OPEN_RING_NAME: &'static str = "open";

/// The characters with the Unicode property `White_Space`.
pub open spec fn white_space(c: char) -> bool {
    ||| '\u{9}' <= c <= '\u{d}'
    ||| c == '\u{20}' || c == '\u{85}' || c == '\u{a0}' || c == '\u{1680}'
    ||| '\u{2000}' <= c <= '\u{200a}'
    ||| c == '\u{2028}' || c == '\u{2029}' || c == '\u{202f}' || c == '\u{205f}' || c == '\u{3000}'
}

/// `char::is_whitespace` tells whether a character has the property `White_Space` of the
/// Unicode Character Database (`PropList.txt`); the contract lists its characters.
pub assume_specification[ char::is_whitespace ](c: char) -> (yes: bool)
    ensures
        yes == white_space(c),
;

/// A point on the monotonic clock of the standard library, carried but never looked into.
#[verifier::external_type_specification]
#[verifier::external_body]
pub struct ExInstant(std::time::Instant);

/// `Instant::now` reads the monotonic clock; nothing is claimed of the reading.
pub assume_specification[ std::time::Instant::now ]() -> std::time::Instant;

/// Whether a character may not occur in a ring name.
pub open spec fn forbidden(c: char) -> bool {
    white_space(c) || c == '\0'
}

/// Whether `name` is free of whitespace and NUL.
pub open spec fn clean(name: Seq<char>) -> bool {
    forall|i: int| 0 <= i < name.len() ==> !forbidden(#[trigger] name[i])
}

/// Ring names are non-empty, whitespace-free and NUL-free.
pub open spec fn valid_name(name: Seq<char>) -> bool {
    name.len() > 0 && clean(name)
}

/// The name of the open ring is itself a valid ring name.
pub proof fn lemma_open_name_valid()
    ensures
        valid_name(OPEN_RING_NAME@),
        OPEN_RING_NAME@ == seq!['o', 'p', 'e', 'n'],
{
    reveal_strlit("open");
    assert(OPEN_RING_NAME@ =~= seq!['o', 'p', 'e', 'n']);
}

/// A named group of peers.
///
/// Equality and hashing are based solely on the name; the timestamp records
/// when the ring was created and is used for display ordering only.
#[derive(Debug)]
pub struct Ring {
    /// Unique name. Non-empty, whitespace-free and NUL-free.
    name: String,
    /// Creation time, not part of equality or hashing.
    timestamp: Instant,
}

/// A ring is, up to equality, its name.
impl View for Ring {
    type V = Seq<char>;

    closed spec fn view(&self) -> Seq<char> {
        self.name@
    }
}

impl Ring {
    #[verifier::type_invariant]
    spec fn named_validly(&self) -> bool {
        valid_name(self.name@)
    }

    /// The moment at which this ring was made.
    pub closed spec fn created(&self) -> Instant {
        self.timestamp
    }

    /// Creates a ring with the given name, stamped with the current time.
    pub fn new(name: &str) -> (ring: Result<Ring, Error>)
        ensures
            name@.len() == 0 <==> ring matches Err(Error::RingNameEmpty),
            name@.len() > 0 && !clean(name@) <==> ring matches Err(Error::RingNameInvalidChars),
            valid_name(name@) <==> ring is Ok,
            ring matches Ok(r) ==> r@ == name@ && call_ensures(Instant::now, (), r.created()),
    {
        Ring::with_timestamp(name, Instant::now())
    }

    /// Creates a ring with the given name that was made at the given time.
    pub fn with_timestamp(name: &str, timestamp: Instant) -> (ring: Result<Ring, Error>)
        ensures
            name@.len() == 0 <==> ring matches Err(Error::RingNameEmpty),
            name@.len() > 0 && !clean(name@) <==> ring matches Err(Error::RingNameInvalidChars),
            valid_name(name@) <==> ring is Ok,
            ring matches Ok(r) ==> r@ == name@ && r.created() == timestamp,
    {
        if name.is_empty() {
            return Err(Error::RingNameEmpty);
        }
        if has_forbidden(name) {
            return Err(Error::RingNameInvalidChars);
        }
        Ok(Ring { name: name.to_string(), timestamp })
    }

    /// Creates the built-in open ring.
    #[must_use]
    pub fn new_open() -> (ring: Ring)
        ensures
            ring@ == OPEN_RING_NAME@,
            call_ensures(Instant::now, (), ring.created()),
    {
        proof {
            lemma_open_name_valid();
        }
        Ring { name: OPEN_RING_NAME.to_string(), timestamp: Instant::now() }
    }

    /// Returns the ring name as a string slice.
    #[must_use]
    pub fn as_str(&self) -> (name: &str)
        ensures
            name@ == self@,
            valid_name(name@),
    {
        proof {
            use_type_invariant(self);
        }
        self.name.as_str()
    }

    /// Returns `true` if this is the built-in open ring.
    #[must_use]
    pub fn is_open(&self) -> (open: bool)
        ensures
            open == (self@ == OPEN_RING_NAME@),
    {
        octets::str_eq(self.name.as_str(), OPEN_RING_NAME)
    }

    /// Returns the creation timestamp, used for display ordering only.
    #[must_use]
    pub fn timestamp(&self) -> (at: Instant)
        ensures
            at == self.created(),
    {
        self.timestamp
    }

    /// Returns the text by which the ring is shown: its name.
    #[must_use]
    pub fn to_string(&self) -> (text: String)
        ensures
            text@ == self@,
    {
        self.name.clone()
    }
}

/// Whether `name` holds whitespace or NUL.
fn has_forbidden(name: &str) -> (found: bool)
    ensures
        found == !clean(name@),
{
    for c in it: name.chars()
        invariant
            it.seq() == name@,
            forall|i: int| 0 <= i < it.index() ==> !forbidden(#[trigger] name@[i]),
    {
        if c.is_whitespace() || c == '\0' {
            proof {
                assert(forbidden(name@[it.index()]));
            }
            return true;
        }
    }
    false
}

/// A name is clean if each of its characters is outside the property `White_Space`, code point by
/// code point, and is not NUL; no other character is refused.
pub proof fn law_clean_names(name: Seq<char>)
    ensures
        clean(name) <==> forall|i: int|
            #![trigger name[i]]
            0 <= i < name.len() ==> {
                &&& !('\u{9}' <= name[i] <= '\u{d}')
                &&& name[i] != ' ' && name[i] != '\u{85}' && name[i] != '\u{a0}' && name[i] != '\u{1680}'
                &&& !('\u{2000}' <= name[i] <= '\u{200a}')
                &&& name[i] != '\u{2028}' && name[i] != '\u{2029}' && name[i] != '\u{202f}'
                &&& name[i] != '\u{205f}' && name[i] != '\u{3000}'
                &&& name[i] != '\0'
            },
        valid_name(name) <==> name.len() > 0 && clean(name),
{
    assert(clean(name) ==> forall|i: int| 0 <= i < name.len() ==> !forbidden(#[trigger] name[i]));
}

/// A name that is not empty, and in which no character is white space or NUL, makes a ring of
/// that name, however it is made. The empty name and a name with such a character are refused,
/// each with its own error.
pub proof fn law_ring_names(name: &str, timestamp: Instant, now: Result<Ring, Error>, then: Result<Ring, Error>)
    requires
        call_ensures(Ring::new, (name,), now),
        call_ensures(Ring::with_timestamp, (name, timestamp), then),
    ensures
        ({
            let fine = forall|i: int|
                #![trigger name@[i]]
                0 <= i < name@.len() ==> {
                    &&& !('\u{9}' <= name@[i] <= '\u{d}')
                    &&& name@[i] != ' ' && name@[i] != '\u{85}' && name@[i] != '\u{a0}' && name@[i] != '\u{1680}'
                    &&& !('\u{2000}' <= name@[i] <= '\u{200a}')
                    &&& name@[i] != '\u{2028}' && name@[i] != '\u{2029}' && name@[i] != '\u{202f}'
                    &&& name@[i] != '\u{205f}' && name@[i] != '\u{3000}'
                    &&& name@[i] != '\0'
                };
            &&& name@.len() > 0 && fine ==> {
                &&& now matches Ok(ring) && ring@ == name@
                &&& then matches Ok(ring) && ring@ == name@
            }
            &&& name@.len() == 0 ==> now == Err::<Ring, Error>(Error::RingNameEmpty) && then == Err::<Ring, Error>(
                Error::RingNameEmpty,
            )
            &&& name@.len() > 0 && !fine ==> now == Err::<Ring, Error>(Error::RingNameInvalidChars) && then == Err::<
                Ring,
                Error,
            >(Error::RingNameInvalidChars)
        }),
{
    law_clean_names(name@);
}

/// A ring gives back the name and the time that it was made with, is the open ring if and only if
/// its name is `open`, and was made when it was made: at the given time, or else when the monotonic
/// clock was read.
pub proof fn law_ring_parts(
    name: &str,
    timestamp: Instant,
    given: Ring,
    fresh: Ring,
    shown: &str,
    text: String,
    open: bool,
    at: Instant,
    fresh_at: Instant,
)
    requires
        call_ensures(Ring::with_timestamp, (name, timestamp), Ok(given)),
        call_ensures(Ring::new, (name,), Ok(fresh)),
        call_ensures(Ring::as_str, (&given,), shown),
        call_ensures(Ring::to_string, (&given,), text),
        call_ensures(Ring::is_open, (&given,), open),
        call_ensures(Ring::timestamp, (&given,), at),
        call_ensures(Ring::timestamp, (&fresh,), fresh_at),
    ensures
        shown@ == name@,
        text@ == name@,
        open <==> name@ == seq!['o', 'p', 'e', 'n'],
        at == timestamp,
        call_ensures(Instant::now, (), fresh_at),
{
    lemma_open_name_valid();
}

/// Two rings are equal if and only if their names are, whenever they were made.
pub proof fn law_rings_are_equal_by_name(
    names: (&str, &str),
    timestamps: (Instant, Instant),
    rings: (Ring, Ring),
    same: bool,
)
    requires
        call_ensures(Ring::with_timestamp, (names.0, timestamps.0), Ok(rings.0)),
        call_ensures(Ring::with_timestamp, (names.1, timestamps.1), Ok(rings.1)),
        call_ensures(<Ring as PartialEq>::eq, (&rings.0, &rings.1), same),
    ensures
        same <==> names.0@ == names.1@,
{
}

/// The open ring is named `open`, was made when the monotonic clock was read, and knows that it
/// is the open ring.
pub proof fn law_open_ring(ring: Ring, open: bool)
    requires
        call_ensures(Ring::new_open, (), ring),
        call_ensures(Ring::is_open, (&ring,), open),
    ensures
        open,
        ring@ == seq!['o', 'p', 'e', 'n'],
        call_ensures(Instant::now, (), ring.created()),
{
    lemma_open_name_valid();
}

impl Clone for Ring {
    fn clone(&self) -> (copy: Ring)
        ensures
            copy == *self,
    {
        proof {
            use_type_invariant(self);
        }
        Ring { name: self.name.clone(), timestamp: self.timestamp }
    }
}

impl PartialEq for Ring {
    fn eq(&self, other: &Ring) -> (same: bool) {
        self.name == other.name
    }
}

impl vstd::std_specs::cmp::PartialEqSpecImpl for Ring {
    open spec fn obeys_eq_spec() -> bool {
        true
    }

    open spec fn eq_spec(&self, other: &Ring) -> bool {
        self@ == other@
    }
}

impl Eq for Ring {

}

/// `String::hash` feeds the name, and nothing else of the ring, to the hasher.
impl std::hash::Hash for Ring {
    #[verifier::external_body]
    fn hash<H: std::hash::Hasher>(&self, state: &mut H) {
        self.name.hash(state);
    }
}

} // verus!
