//! Identifiers for connections, messages, and deliveries.

use crate::text;
use uuid::Uuid;
use vstd::prelude::*;

verus! {

/// The hexadecimal digit for a number below sixteen.
pub open spec fn hex_digit(d: u128) -> char {
    if d < 10 {
        (48 + d) as char
    } else {
        (87 + d) as char
    }
}

/// The `k`-th of the thirty-two hexadecimal digits of a number, from the left.
pub open spec fn nth_digit(id: u128, k: int) -> char {
    hex_digit((id >> ((124 - 4 * k) as u128)) & 0xf)
}

/// A number as thirty-two hexadecimal digits, in groups of eight, four, four,
/// four, and twelve, with a hyphen between one group and the next.
pub open spec fn identifier_text(id: u128) -> Seq<char> {
    Seq::new(
        36,
        |i: int|
            if i == 8 || i == 13 || i == 18 || i == 23 {
                '-'
            } else if i < 8 {
                nth_digit(id, i)
            } else if i < 13 {
                nth_digit(id, i - 1)
            } else if i < 18 {
                nth_digit(id, i - 2)
            } else if i < 23 {
                nth_digit(id, i - 3)
            } else {
                nth_digit(id, i - 4)
            },
    )
}

/// Whether a number is marked as a random identifier.
pub open spec fn is_random(id: u128) -> bool {
    (id >> 76) & 0xf == 4 && (id >> 62) & 0x3 == 2
}

/// A random number for use as an identifier.
///
/// Calls `Uuid::new_v4`. What is claimed of it: whatever number comes, its bits
/// for the version and the variant mark it as random. That two calls give two
/// numbers is not claimed. It panics where the system has no randomness to give.
#[verifier::external_body]
fn random_identifier() -> (id: u128)
    ensures
        is_random(id),
{
    Uuid::new_v4().as_u128()
}

/// The text for an identifier.
///
/// Calls `to_string` on `Uuid`. What is claimed of it: the text is the number in
/// lower-case hexadecimal, with hyphens between the groups of digits.
#[verifier::external_body]
pub(crate) fn text_of_identifier(id: u128) -> (text: String)
    ensures
        text@ == identifier_text(id),
{
    Uuid::from_u128(id).to_string()
}

/// An identifier for a new connection.
pub fn new_connection_id() -> (id: u128)
    ensures
        is_random(id),
{
    random_identifier()
}

/// Whether a text is that of some random identifier.
pub open spec fn is_random_text(text: Seq<char>) -> bool {
    exists|id: u128| is_random(id) && text == #[trigger] identifier_text(id)
}

/// A supply of identifiers for messages and deliveries. It hands out those that
/// it was given first, and random ones after that.
pub struct IdSupply {
    given: Vec<String>,
    next: usize,
    handed_out: Ghost<Seq<Seq<char>>>,
}

impl IdSupply {
    /// Whether the supply is in order.
    pub closed spec fn wf(self) -> bool {
        self.next <= self.given@.len()
    }

    /// The identifiers handed out so far, and those known to come next.
    pub closed spec fn known(self) -> Seq<Seq<char>> {
        self.handed_out@ + text::texts(self.given@).skip(self.next as int)
    }

    /// How many identifiers were handed out.
    pub closed spec fn used(self) -> nat {
        self.handed_out@.len()
    }

    /// Whether `all` may be all the identifiers that the supply ever hands out:
    /// those known so far come first.
    pub open spec fn may_give(self, all: Seq<Seq<char>>) -> bool {
        self.known().is_prefix_of(all)
    }

    /// Whether this is the supply `before` after it has handed out some more
    /// identifiers. What is known of those to come stays so, what was not known
    /// is random, and nothing is known of more than were handed out.
    pub open spec fn follows(self, before: Self) -> bool {
        &&& before.used() <= self.used()
        &&& before.known().is_prefix_of(self.known())
        &&& forall|k: int|
            before.known().len() <= k < self.known().len() ==> is_random_text(
                #[trigger] self.known()[k],
            )
        &&& self.used() <= before.known().len() ==> self.known() == before.known()
    }

    /// A supply follows those from before the one that it follows.
    pub proof fn follows_on(self, before: Self, start: Self)
        requires
            self.follows(before),
            before.follows(start),
        ensures
            self.follows(start),
    {
        assert forall|k: int|
            start.known().len() <= k < self.known().len() implies is_random_text(
            #[trigger] self.known()[k],
        ) by {
            if k < before.known().len() {
                assert(self.known()[k] == before.known()[k]);
            }
        }
    }

    /// A supply of random identifiers.
    pub fn new() -> (ids: Self)
        ensures
            ids.wf(),
            ids.used() == 0,
            ids.known() == Seq::<Seq<char>>::empty(),
    {
        let ids = IdSupply { given: Vec::new(), next: 0, handed_out: Ghost(Seq::empty()) };
        assert(ids.known() =~= seq![]);
        ids
    }

    /// A supply of the given identifiers, and of random ones after those.
    pub fn starting_with(given: Vec<String>) -> (ids: Self)
        ensures
            ids.wf(),
            ids.used() == 0,
            ids.known() == text::texts(given@),
    {
        let ids = IdSupply { given, next: 0, handed_out: Ghost(Seq::empty()) };
        assert(ids.known() =~= text::texts(given@));
        ids
    }

    /// The next identifier.
    pub fn next_id(&mut self) -> (id: String)
        requires
            old(self).wf(),
        ensures
            final(self).wf(),
            final(self).used() == old(self).used() + 1,
            final(self).used() <= final(self).known().len(),
            id@ == final(self).known()[old(self).used() as int],
            final(self).follows(*old(self)),
    {
        let ghost before = *self;
        let id: String;
        if self.next < self.given.len() {
            id = self.given[self.next].clone();
            self.next = self.next + 1;
            proof {
                self.handed_out@ = self.handed_out@.push(id@);
                assert(text::texts(before.given@)[before.next as int] == id@);
                assert(self.known() =~= before.known());
            }
        } else {
            let number = random_identifier();
            id = text_of_identifier(number);
            proof {
                self.handed_out@ = self.handed_out@.push(id@);
                assert(self.known() =~= before.known().push(id@));
            }
        }
        id
    }
}

} // verus!
