//! The address of an account.

use vstd::prelude::*;

use std::str::FromStr;

verus! {

/// The address of an account: the 32 bytes of a public key.
#[derive(Clone, Copy, Debug, Eq)]
pub struct Pubkey {
    pub bytes: [u8; 32],
}

impl PartialEq for Pubkey {
    fn eq(&self, other: &Self) -> (equal: bool) {
        let mut i: usize = 0;
        while i < 32
            invariant
                i <= 32,
                forall|j: int| 0 <= j < i ==> self.bytes@[j] == other.bytes@[j],
            decreases 32 - i,
        {
            if self.bytes[i] != other.bytes[i] {
                return false;
            }
            i += 1;
        }
        assert(self.bytes@ =~= other.bytes@);
        assert(self.bytes =~= other.bytes);
        true
    }
}

impl vstd::std_specs::cmp::PartialEqSpecImpl for Pubkey {
    open spec fn obeys_eq_spec() -> bool {
        true
    }

    open spec fn eq_spec(&self, other: &Self) -> bool {
        *self == *other
    }
}

/// The base58 text of an address.
pub uninterp spec fn pubkey_text(bytes: Seq<u8>) -> Seq<char>;

/// The address that a text spells in base58, or nothing where it spells none.
pub uninterp spec fn pubkey_of_text(text: Seq<char>) -> Option<Seq<u8>>;

/// Whether the text of `key` spells `key`. It does of every key whose text has
/// been asked for.
pub open spec fn text_spells(key: Pubkey) -> bool {
    pubkey_of_text(pubkey_text(key.bytes@)) == Some(key.bytes@)
}

/// Writes an address in base58, by the `Display` of `solana_sdk`'s `Pubkey`.
///
/// Trusted: the text depends on the bytes alone, and `from_str` reads the same
/// bytes back from it.
#[verifier::external_body]
pub(crate) fn write_pubkey(key: &Pubkey) -> (text: String)
    ensures
        text@ == pubkey_text(key.bytes@),
        pubkey_of_text(text@) == Some(key.bytes@),
{
    solana_sdk::pubkey::Pubkey::from(key.bytes).to_string()
}

/// Reads an address in base58, by the `from_str` of `solana_sdk`'s `Pubkey`.
///
/// Trusted: whether the text is an address, and which, depends on the text
/// alone, and a text that is one is the text of that address. The decoder accepts
/// as many leading ones as the address has leading zero bytes and no other number
/// of them, so no second text spells the same bytes.
#[verifier::external_body]
pub(crate) fn read_pubkey(text: &str) -> (key: Option<Pubkey>)
    ensures
        key is Some == pubkey_of_text(text@) is Some,
        key matches Some(k) ==> pubkey_of_text(text@) == Some(k.bytes@),
        key matches Some(k) ==> text@ == pubkey_text(k.bytes@),
{
    solana_sdk::pubkey::Pubkey::from_str(text).ok().map(|key| Pubkey { bytes: key.to_bytes() })
}

impl Pubkey {
    /// Writes the address in base58.
    pub fn to_text(&self) -> (text: String)
        ensures
            text@ == pubkey_text(self.bytes@),
            text_spells(*self),
    {
        write_pubkey(self)
    }

    /// Reads an address in base58, or gives nothing where the text is none.
    pub fn from_text(text: &str) -> (key: Option<Pubkey>)
        ensures
            key is Some == pubkey_of_text(text@) is Some,
            key matches Some(k) ==> pubkey_of_text(text@) == Some(k.bytes@),
            key matches Some(k) ==> text@ == pubkey_text(k.bytes@),
    {
        read_pubkey(text)
    }
}

/// Two addresses with one text are one address.
pub proof fn lemma_pubkey_text_is_injective(a: Pubkey, b: Pubkey)
    requires
        text_spells(a),
        text_spells(b),
        pubkey_text(a.bytes@) == pubkey_text(b.bytes@),
    ensures
        a == b,
{
    assert(a.bytes@ =~= b.bytes@);
    assert(a.bytes =~= b.bytes);
}

} // verus!
