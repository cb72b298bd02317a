//! Random idempotency keys, and the deep copy of a tree.

use crate::node::Node;
use crate::text::push_char;
use rand::Rng;
use vstd::prelude::*;

verus! {

/// The thread-local random number generator of the crate `rand`.
#[verifier::external_type_specification]
#[verifier::external_body]
pub struct ExThreadRng(rand::rngs::ThreadRng);

/// `rand::thread_rng` hands out the generator of the calling thread.
/// Nothing is claimed of the generator. The call takes no input; it
/// panics where the system cannot seed the generator.
pub assume_specification[ rand::thread_rng ]() -> (r: rand::rngs::ThreadRng)
;

/// Draws a number from `0` up to, and not including, `bound`:
/// `Rng::gen_range` of the crate `rand` on the range `0..bound`. The
/// contract claims that the number lies in that range, whatever it is;
/// the range must not be empty, for the call panics on an empty one. It
/// panics too where the generator has to be seeded again and the system
/// gives it no entropy; no input of the library decides that.
#[verifier::external_body]
fn sample_below(rng: &mut rand::rngs::ThreadRng, bound: u8) -> (r: u8)
    requires
        bound > 0,
    ensures
        r < bound,
{
    rng.gen_range(0..bound)
}

/// The character that stands for `index` in a key: a digit for an index
/// below 10, then the letters from `a`.
pub open spec fn key_char(index: u8) -> char {
    if index < 10 {
        ('0' as u8 + index) as char
    } else {
        (('a' as u8 + index) - 10) as char
    }
}

/// `c` is a digit or a small letter.
pub open spec fn is_key_char(c: char) -> bool {
    ('0' <= c && c <= '9') || ('a' <= c && c <= 'z')
}

/// `key` has the shape of a generated key: 24 digits and small letters.
pub open spec fn is_idempotency_key(key: Seq<char>) -> bool {
    key.len() == 24 && forall|i: int| 0 <= i < key.len() ==> is_key_char(#[trigger] key[i])
}

/// The character that stands for `index` in a key.
pub fn idempotency_char(index: u8) -> (c: char)
    requires
        index < 36,
    ensures
        c == key_char(index),
        is_key_char(c),
{
    if index < 10 {
        (48u8 + index) as char
    } else {
        (97u8 + index - 10) as char
    }
}

/// Generate a random idempotency key.
pub fn generate_random_idempotency_key() -> (key: String)
    ensures
        is_idempotency_key(key@),
{
    let mut rng = rand::thread_rng();
    let mut key = String::new();
    let mut i: usize = 0;
    while i < 24
        invariant
            i <= 24,
            key@.len() == i,
            forall|j: int| 0 <= j < key@.len() ==> is_key_char(#[trigger] key@[j]),
        decreases 24 - i,
    {
        let index: u8 = sample_below(&mut rng, 36);
        push_char(&mut key, idempotency_char(index));
        i += 1;
    }
    key
}

/// Deep copy of a tree.
pub fn deep_copy(value: &Node) -> (r: Node)
    ensures
        r@ == value@,
{
    value.clone()
}

} // verus!
