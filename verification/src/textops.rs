//! The text tool's transformations: case folding, slugs, space
//! stripping, length, and reversal. Case folding and slugging call
//! outside code whose exact output is named, not restated; the rest is
//! verified down to the characters.

use vstd::prelude::*;
use vstd::string::*;

use crate::seq_facts::lemma_filter_push;
use crate::strutil::{dec_string, push_char, spec_dec};

verus! {

/// What `str::to_lowercase` returns: a function of the characters alone.
pub uninterp spec fn lower_of(s: Seq<char>) -> Seq<char>;

/// Relies on `str::to_lowercase`: the Unicode lowercase of the input,
/// which depends on the input's characters alone.
#[verifier::external_body]
fn to_lowercase(s: &str) -> (r: String)
    ensures
        r@ == lower_of(s@),
{
    s.to_lowercase()
}

/// What `str::to_uppercase` returns: a function of the characters alone.
pub uninterp spec fn upper_of(s: Seq<char>) -> Seq<char>;

/// Relies on `str::to_uppercase`: the Unicode uppercase of the input,
/// which depends on the input's characters alone.
#[verifier::external_body]
fn to_uppercase(s: &str) -> (r: String)
    ensures
        r@ == upper_of(s@),
{
    s.to_uppercase()
}

/// What `slug::slugify` returns: a function of the characters alone.
pub uninterp spec fn slug_of(s: Seq<char>) -> Seq<char>;

/// Relies on `slug::slugify`: the ascii slug of the input — lower-case
/// letters, digits and dashes — which depends on the input's characters
/// alone; an empty input gives an empty slug.
#[verifier::external_body]
fn slugify_str(s: &str) -> (r: String)
    ensures
        r@ == slug_of(s@),
        s@.len() == 0 ==> r@.len() == 0,
{
    slug::slugify(s)
}

/// Lower-cases the input.
pub fn lowercase(input: &str) -> (r: String)
    ensures
        r@ == lower_of(input@),
{
    to_lowercase(input)
}

/// Upper-cases the input.
pub fn uppercase(input: &str) -> (r: String)
    ensures
        r@ == upper_of(input@),
{
    to_uppercase(input)
}

/// Turns the input into a slug.
pub fn slugify(input: &str) -> (r: String)
    ensures
        r@ == slug_of(input@),
{
    slugify_str(input)
}

/// The input without its spaces.
pub open spec fn spec_no_spaces(s: Seq<char>) -> Seq<char> {
    s.filter(spec_not_space())
}

/// Holds of every character but the space.
pub open spec fn spec_not_space() -> spec_fn(char) -> bool {
    |c: char| c != ' '
}

/// Removes every space from the input.
pub fn no_space(input: &str) -> (r: String)
    ensures
        r@ == spec_no_spaces(input@),
{
    let ghost pred = spec_not_space();
    let n = input.unicode_len();
    let mut out = String::new();
    let mut i: usize = 0;
    proof {
        assert(out@ =~= input@.take(0).filter(pred));
    }
    while i < n
        invariant
            0 <= i <= n,
            n == input@.len(),
            pred == spec_not_space(),
            out@ == input@.take(i as int).filter(pred),
        decreases n - i,
    {
        let c = input.get_char(i);
        proof {
            assert(input@.take(i + 1) =~= input@.take(i as int).push(input@[i as int]));
            lemma_filter_push(input@.take(i as int), pred, input@[i as int]);
        }
        if c != ' ' {
            push_char(&mut out, c);
            proof {
                assert(out@ =~= input@.take(i + 1).filter(pred));
            }
        } else {
            proof {
                assert(out@ =~= input@.take(i + 1).filter(pred));
            }
        }
        i = i + 1;
    }
    proof {
        assert(input@.take(n as int) =~= input@);
    }
    out
}

/// The input's length in bytes, in decimal.
pub fn len(input: &str) -> (r: String)
    ensures
        r@ == spec_dec(input.len() as int),
{
    dec_string(input.len())
}

/// The input's characters in reverse order.
pub fn reverse(input: &str) -> (r: String)
    ensures
        r@ == input@.reverse(),
{
    let n = input.unicode_len();
    let mut out = String::new();
    let mut i: usize = 0;
    while i < n
        invariant
            0 <= i <= n,
            n == input@.len(),
            out@.len() == i,
            forall|k: int| 0 <= k < i ==> out@[k] == input@[n - 1 - k],
        decreases n - i,
    {
        let c = input.get_char(n - 1 - i);
        push_char(&mut out, c);
        i = i + 1;
    }
    proof {
        assert(out@ =~= input@.reverse());
    }
    out
}

} // verus!
