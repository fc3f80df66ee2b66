//! Path normalization: every path the library hands out uses forward
//! slashes, whatever separator the platform wrote.

use vstd::prelude::*;

verus! {

/// The byte `\`.
pub const BACKSLASH: u8 = 92;

/// The byte `/`.
pub const SLASH: u8 = 47;

/// One path byte with `\` turned into `/`.
pub open spec fn norm_byte(b: u8) -> u8 {
    if b == BACKSLASH {
        SLASH
    } else {
        b
    }
}

/// A path with every `\` turned into `/`.
pub open spec fn norm(s: Seq<u8>) -> Seq<u8> {
    s.map_values(|b: u8| norm_byte(b))
}

/// A single `/`, as a sequence.
pub open spec fn slash_seq() -> Seq<u8> {
    seq![SLASH]
}

/// Normalization distributes over concatenation.
pub proof fn lemma_norm_concat(a: Seq<u8>, b: Seq<u8>)
    ensures
        norm(a + b) == norm(a) + norm(b),
{
    assert(norm(a + b) =~= norm(a) + norm(b));
}

/// `s` with every `\` replaced by `/`.
pub fn normalize_separators(s: &[u8]) -> (r: Vec<u8>)
    ensures
        r@ == norm(s@),
{
    let mut out: Vec<u8> = Vec::new();
    let mut i: usize = 0;
    while i < s.len()
        invariant
            0 <= i <= s@.len(),
            out@ == norm(s@.take(i as int)),
        decreases s@.len() - i,
    {
        let b = s[i];
        if b == BACKSLASH {
            out.push(SLASH);
        } else {
            out.push(b);
        }
        assert(out@ =~= norm(s@.take(i + 1)));
        i = i + 1;
    }
    assert(s@.take(s@.len() as int) =~= s@);
    out
}

/// What joining a base path, a connective and a relative path yields:
/// plain concatenation, then separator normalization.
pub open spec fn joined(base: Seq<u8>, rel: Seq<u8>, connective: Seq<u8>) -> Seq<u8> {
    norm(base + connective + rel)
}

/// Concatenates an absolute base path, a connective (usually `/`) and a
/// relative path, and normalizes the separators of the result.
pub fn join_paths(base: &[u8], rel: &[u8], connective: &[u8]) -> (r: Vec<u8>)
    ensures
        r@ == joined(base@, rel@, connective@),
{
    let mut cat: Vec<u8> = Vec::new();
    crate::text::extend_from(&mut cat, base);
    crate::text::extend_from(&mut cat, connective);
    crate::text::extend_from(&mut cat, rel);
    normalize_separators(cat.as_slice())
}

/// The Windows extended-length prefix `\\?\`.
pub open spec fn extended_length_prefix() -> Seq<u8> {
    seq![BACKSLASH, BACKSLASH, 63u8, BACKSLASH]
}

/// Removes a leading `\\?\`, the prefix Windows canonicalization puts in
/// front of a path, and leaves any other path unchanged.
pub fn strip_extended_length_prefix(s: &[u8]) -> (r: Vec<u8>)
    ensures
        extended_length_prefix().is_prefix_of(s@) ==> r@ == s@.skip(4),
        !extended_length_prefix().is_prefix_of(s@) ==> r@ == s@,
{
    if s.len() >= 4 && s[0] == BACKSLASH && s[1] == BACKSLASH && s[2] == 63 && s[3] == BACKSLASH {
        assert(extended_length_prefix().is_prefix_of(s@)) by {
            assert(s@.take(4) =~= extended_length_prefix());
        }
        crate::text::subvec(s, 4, s.len())
    } else {
        assert(!extended_length_prefix().is_prefix_of(s@)) by {
            if extended_length_prefix().is_prefix_of(s@) {
                assert(s@[0] == BACKSLASH && s@[1] == BACKSLASH && s@[2] == 63 && s@[3]
                    == BACKSLASH) by {
                    assert(s@.take(4)[0] == s@[0] && s@.take(4)[1] == s@[1] && s@.take(4)[2]
                        == s@[2] && s@.take(4)[3] == s@[3]);
                }
            }
        }
        crate::text::subvec(s, 0, s.len())
    }
}

} // verus!
