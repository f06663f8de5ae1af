//! Identities and the derivation of table keys from display names.

use vstd::prelude::*;

verus! {

/// One stored identity: a display name and an email address.
pub struct Identity {
    pub name: String,
    pub email: String,
}

/// Ghost mirror of an [`Identity`]: both fields as character sequences.
pub ghost struct IdentityV {
    pub name: Seq<char>,
    pub email: Seq<char>,
}

impl Identity {
    pub open spec fn view(&self) -> IdentityV {
        IdentityV { name: self.name@, email: self.email@ }
    }
}

/// Whether `c` has the Unicode `White_Space` property; keys may not
/// contain such characters.
pub open spec fn is_whitespace_spec(c: char) -> bool {
    ||| c as u32 == 0x09
    ||| c as u32 == 0x0A
    ||| c as u32 == 0x0B
    ||| c as u32 == 0x0C
    ||| c as u32 == 0x0D
    ||| c as u32 == 0x20
    ||| c as u32 == 0x85
    ||| c as u32 == 0xA0
    ||| c as u32 == 0x1680
    ||| (0x2000 <= c as u32 && c as u32 <= 0x200A)
    ||| c as u32 == 0x2028
    ||| c as u32 == 0x2029
    ||| c as u32 == 0x202F
    ||| c as u32 == 0x205F
    ||| c as u32 == 0x3000
}

/// How key derivation treats a single character of a display name.
pub open spec fn norm_char(c: char) -> char {
    if is_whitespace_spec(c) {
        '_'
    } else {
        c
    }
}

/// The key derived from a display name: every whitespace character
/// replaced by an underscore.
pub open spec fn key_of(s: Seq<char>) -> Seq<char> {
    Seq::new(s.len(), |i: int| norm_char(s[i]))
}

/// Whether `c` has the Unicode `White_Space` property.
pub fn is_whitespace_char(c: char) -> (r: bool)
    ensures
        r == is_whitespace_spec(c),
{
    let u = c as u32;
    u == 0x09 || u == 0x0A || u == 0x0B || u == 0x0C || u == 0x0D || u == 0x20 || u == 0x85 || u
        == 0xA0 || u == 0x1680 || (0x2000 <= u && u <= 0x200A) || u == 0x2028 || u == 0x2029 || u
        == 0x202F || u == 0x205F || u == 0x3000
}

/// Derives the table key for a display name by replacing each
/// whitespace character with an underscore.
pub fn derive_key(name: &str) -> (key: String)
    ensures
        key@ == key_of(name@),
{
    let n = name.unicode_len();
    let mut key = String::new();
    let mut i: usize = 0;
    while i < n
        invariant
            n == name@.len(),
            i <= n,
            key@ =~= key_of(name@).take(i as int),
        decreases n - i,
    {
        let c = name.get_char(i);
        if is_whitespace_char(c) {
            crate::text::push_char(&mut key, '_');
        } else {
            crate::text::push_char(&mut key, c);
        }
        i += 1;
    }
    proof {
        assert(key@ =~= key_of(name@));
    }
    key
}

/// Underscores are not whitespace, so a derived key contains no
/// whitespace character.
pub proof fn lemma_key_has_no_whitespace(s: Seq<char>)
    ensures
        forall|i: int| 0 <= i < key_of(s).len() ==> !is_whitespace_spec(key_of(s)[i]),
{
    assert(!is_whitespace_spec('_'));
}

/// Key derivation is idempotent: deriving a key from a key changes
/// nothing.
pub proof fn lemma_key_of_idempotent(s: Seq<char>)
    ensures
        key_of(key_of(s)) == key_of(s),
{
    lemma_key_has_no_whitespace(s);
    assert(key_of(key_of(s)) =~= key_of(s));
}

/// A display name without whitespace is its own key.
pub proof fn lemma_key_of_plain_name(s: Seq<char>)
    requires
        forall|i: int| 0 <= i < s.len() ==> !is_whitespace_spec(s[i]),
    ensures
        key_of(s) == s,
{
    assert(key_of(s) =~= s);
}

} // verus!
