//! The BIP-39 English wordlist, as the `bip39` crate provides it.
use vstd::prelude::*;

verus! {

/// Word `i` of the BIP-39 English wordlist.
pub uninterp spec fn bip39_english_word(i: usize) -> Seq<char>;

/// Word `i` of the BIP-39 English wordlist
/// (`bip39::Language::English.word_list()[i]`, the constant array in the
/// crate's `language/english.rs`). Claims: the result is the named
/// [`bip39_english_word`]; as that array shows, it is a non-empty run of the
/// letters `a`–`z`, and no other entry of the list equals it.
#[verifier::external_body]
pub(crate) fn english_word(i: usize) -> (w: &'static str)
    requires
        i < 2048,
    ensures
        w@ == bip39_english_word(i),
        w@.len() > 0,
        forall|j: int| 0 <= j < w@.len() ==> 'a' <= #[trigger] w@[j] && w@[j] <= 'z',
        forall|k: usize| k < 2048 && k != i ==> #[trigger] bip39_english_word(k) != w@,
{
    bip39::Language::English.word_list()[i]
}

} // verus!
