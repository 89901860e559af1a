//! The display name of a provider that was given none: the type name of its
//! system, tidied.

use vstd::prelude::*;

verus! {

/// The name is wrapped in angle brackets.
pub open spec fn is_bracketed(name: Seq<char>) -> bool {
    name.len() > 0 && name.first() == '<' && name.last() == '>'
}

/// The brackets of the name can be cut off where a `str` can be cut: the
/// name is not wrapped in brackets, or it holds at least three characters
/// and the one before the closing bracket takes a single byte.
pub open spec fn can_unbracket(name: Seq<char>) -> bool {
    is_bracketed(name) ==> name.len() >= 3 && (name[name.len() - 2] as u32) < 0x80
}

/// A name that is wrapped in angle brackets loses its first character and
/// its last two; any other name stays as it is.
pub open spec fn unbracketed(name: Seq<char>) -> Seq<char> {
    if is_bracketed(name) {
        name.subrange(1, name.len() - 2)
    } else {
        name
    }
}

/// The text without the pattern: read from the left, every place where the
/// pattern stands is skipped, and what is left is put together.
pub open spec fn without(text: Seq<char>, pattern: Seq<char>) -> Seq<char>
    decreases text.len(),
{
    if text.len() == 0 || pattern.len() == 0 {
        text
    } else if pattern.is_prefix_of(text) {
        without(text.skip(pattern.len() as int), pattern)
    } else {
        seq![text[0]] + without(text.skip(1), pattern)
    }
}

/// The module path that is dropped from a name wherever it stands.
pub open spec fn dropped_path() -> Seq<char> {
    "setup_tracking::"@
}

/// The display name that a provider gets from the type name of its system.
pub open spec fn display_name(full_name: Seq<char>) -> Seq<char> {
    without(unbracketed(full_name), dropped_path())
}

/// The characters of a text.
fn chars_of(text: &str) -> (chars: Vec<char>)
    ensures
        chars@ == text@,
{
    broadcast use vstd::string::axiom_spec_iter;

    let mut chars: Vec<char> = Vec::new();
    let ghost mut taken: int = 0;
    for c in it: text.chars()
        invariant
            it.seq() == text@,
            taken == it.index(),
            chars@ == text@.take(taken),
    {
        chars.push(c);
        proof {
            assert(text@.take(taken + 1) =~= text@.take(taken).push(c));
            taken = taken + 1;
        }
    }
    proof {
        assert(text@.take(taken) =~= text@);
    }
    chars
}

/// `String::from_iter`: the text of a list of characters.
#[verifier::external_body]
fn string_of(chars: &Vec<char>) -> (text: String)
    ensures
        text@ == chars@,
{
    String::from_iter(chars.iter())
}

/// Whether the pattern stands in the text at `at`.
fn stands_at(text: &Vec<char>, at: usize, pattern: &Vec<char>) -> (found: bool)
    requires
        at <= text.len(),
    ensures
        found == pattern@.is_prefix_of(text@.skip(at as int)),
{
    if pattern.len() > text.len() - at {
        return false;
    }
    let mut j: usize = 0;
    while j < pattern.len()
        invariant
            j <= pattern.len(),
            at + pattern.len() <= text.len(),
            forall|t: int| 0 <= t < j ==> pattern@[t] == text@[at + t],
        decreases pattern.len() - j,
    {
        if pattern[j] != text[at + j] {
            proof {
                let rest = text@.skip(at as int);
                assert(rest.subrange(0, pattern@.len() as int)[j as int] == text@[at + j]);
            }
            return false;
        }
        j += 1;
    }
    proof {
        let rest = text@.skip(at as int);
        assert(pattern@ =~= rest.subrange(0, pattern@.len() as int));
    }
    true
}

/// The text without the pattern.
fn remove_all(text: &Vec<char>, pattern: &Vec<char>) -> (out: Vec<char>)
    requires
        pattern.len() > 0,
    ensures
        out@ == without(text@, pattern@),
{
    let mut out: Vec<char> = Vec::new();
    let mut i: usize = 0;
    proof {
        assert(text@.skip(0) =~= text@);
        assert(out@ + without(text@, pattern@) =~= without(text@, pattern@));
    }
    while i < text.len()
        invariant
            i <= text.len(),
            pattern.len() > 0,
            out@ + without(text@.skip(i as int), pattern@) == without(text@, pattern@),
        decreases text.len() - i,
    {
        let ghost rest = text@.skip(i as int);
        if stands_at(text, i, pattern) {
            proof {
                assert(rest.skip(pattern@.len() as int) =~= text@.skip(i + pattern@.len()));
            }
            i += pattern.len();
        } else {
            let ghost before = out@;
            out.push(text[i]);
            proof {
                assert(rest.skip(1) =~= text@.skip(i + 1));
                assert(rest[0] == text@[i as int]);
                assert(out@ + without(rest.skip(1), pattern@) =~= before + (seq![rest[0]] + without(
                    rest.skip(1),
                    pattern@,
                )));
            }
            i += 1;
        }
    }
    proof {
        assert(text@.skip(i as int).len() == 0);
        assert(out@ + without(text@.skip(i as int), pattern@) =~= out@);
    }
    out
}

/// Whether the brackets of a name can be cut off.
pub fn name_can_be_tidied(full_name: &str) -> (can: bool)
    ensures
        can == can_unbracket(full_name@),
{
    let chars = chars_of(full_name);
    let n = chars.len();
    if n > 0 && chars[0] == '<' && chars[n - 1] == '>' {
        n >= 3 && (chars[n - 2] as u32) < 0x80
    } else {
        true
    }
}

/// The display name of a provider that was given none, from the type name
/// of its system: a name in angle brackets loses them, and the module path
/// of the setup tracking is dropped wherever it stands.
pub fn provider_name(full_name: &str) -> (name: String)
    requires
        can_unbracket(full_name@),
    ensures
        name@ == display_name(full_name@),
{
    let chars = chars_of(full_name);
    let pattern = chars_of("setup_tracking::");
    let n = chars.len();
    let mut inner: Vec<char> = Vec::new();
    if n > 0 && chars[0] == '<' && chars[n - 1] == '>' {
        let mut i: usize = 1;
        while i < n - 2
            invariant
                n == chars.len(),
                n >= 3,
                1 <= i <= n - 2,
                inner@ == chars@.subrange(1, i as int),
            decreases n - i,
        {
            inner.push(chars[i]);
            i += 1;
            proof {
                assert(chars@.subrange(1, i as int) =~= chars@.subrange(1, i - 1).push(chars@[i - 1]));
            }
        }
    } else {
        inner = chars;
    }
    proof {
        reveal_strlit("setup_tracking::");
    }
    let kept = remove_all(&inner, &pattern);
    string_of(&kept)
}

} // verus!
