//! The decisions of the interactive loop: classifying the menu
//! input, resolving a numeric selection against the sorted table,
//! adding an identity, and judging the applier's two invocations.

use vstd::prelude::*;
use vstd::string::StringExecFns;

use crate::ident::{derive_key, key_of, Identity, IdentityV};
use crate::registry::{inserted, sorted_key_seq, Config, SelectError};

verus! {

/// What a line of menu input asks for.
#[derive(PartialEq, Eq, Structural, Debug)]
pub enum Choice {
    Quit,
    Add,
    Select,
}

/// Classifies one line of menu input: `q` or `Q` quits, `a` or `A`
/// adds an identity, and anything else is read as a selection.
pub fn classify_choice(input: &str) -> (c: Choice)
    ensures
        (c == Choice::Quit) == (input@ == "q"@ || input@ == "Q"@),
        (c == Choice::Add) == (input@ == "a"@ || input@ == "A"@),
        (c == Choice::Select) == (input@ != "q"@ && input@ != "Q"@ && input@ != "a"@ && input@
            != "A"@),
{
    proof {
        reveal_strlit("q");
        reveal_strlit("Q");
        reveal_strlit("a");
        reveal_strlit("A");
    }
    if input.unicode_len() != 1 {
        proof {
            assert(input@ != "q"@ && input@ != "Q"@ && input@ != "a"@ && input@ != "A"@);
        }
        return Choice::Select;
    }
    let ch = input.get_char(0);
    proof {
        assert(input@ =~= seq![input@[0]]);
    }
    if ch == 'q' || ch == 'Q' {
        proof {
            if ch == 'q' {
                assert(input@ =~= "q"@);
            } else {
                assert(input@ =~= "Q"@);
            }
        }
        Choice::Quit
    } else if ch == 'a' || ch == 'A' {
        proof {
            if ch == 'a' {
                assert(input@ =~= "a"@);
            } else {
                assert(input@ =~= "A"@);
            }
        }
        Choice::Add
    } else {
        Choice::Select
    }
}

/// Whether a character is a decimal digit.
pub open spec fn is_digit(c: char) -> bool {
    '0' <= c && c <= '9'
}

/// The value of a decimal digit.
pub open spec fn digit_val(c: char) -> int {
    c as u32 - 48
}

/// Whether a text is entirely decimal digits.
pub open spec fn all_digits(s: Seq<char>) -> bool {
    forall|i: int| 0 <= i < s.len() ==> is_digit(#[trigger] s[i])
}

/// The number a digit string denotes.
pub open spec fn dec_value(s: Seq<char>) -> int
    decreases s.len(),
{
    if s.len() == 0 {
        0
    } else {
        dec_value(s.drop_last()) * 10 + digit_val(s.last())
    }
}

proof fn lemma_dec_value_nonneg(s: Seq<char>)
    requires
        all_digits(s),
    ensures
        dec_value(s) >= 0,
    decreases s.len(),
{
    if s.len() > 0 {
        assert(all_digits(s.drop_last()));
        lemma_dec_value_nonneg(s.drop_last());
    }
}

/// A digit string denotes at least as much as any of its prefixes.
proof fn lemma_dec_value_take_le(s: Seq<char>, i: int)
    requires
        all_digits(s),
        0 <= i <= s.len(),
    ensures
        dec_value(s.take(i)) <= dec_value(s),
    decreases s.len() - i,
{
    if i == s.len() {
        assert(s.take(i) =~= s);
    } else {
        assert(all_digits(s.take(i + 1)));
        assert(s.take(i + 1).drop_last() =~= s.take(i));
        lemma_dec_value_nonneg(s.take(i));
        assert(dec_value(s.take(i)) <= dec_value(s.take(i + 1)));
        lemma_dec_value_take_le(s, i + 1);
    }
}

/// Parses a line as a decimal number, rejecting empty input, any
/// non-digit character, and values too large to represent.
pub fn parse_index(s: &str) -> (r: Option<usize>)
    ensures
        r is Some ==> s@.len() > 0 && all_digits(s@) && r->0 == dec_value(s@),
        r is None ==> s@.len() == 0 || !all_digits(s@) || dec_value(s@) > usize::MAX,
{
    let n = s.unicode_len();
    if n == 0 {
        return None;
    }
    let mut acc: usize = 0;
    let mut i: usize = 0;
    while i < n
        invariant
            n == s@.len(),
            i <= n,
            all_digits(s@.take(i as int)),
            acc == dec_value(s@.take(i as int)),
        decreases n - i,
    {
        let c = s.get_char(i);
        if c < '0' || c > '9' {
            proof {
                assert(!all_digits(s@)) by {
                    assert(!is_digit(s@[i as int]));
                }
            }
            return None;
        }
        proof {
            assert(s@.take(i + 1).drop_last() =~= s@.take(i as int));
            assert(all_digits(s@.take(i + 1)));
        }
        let d = (c as u32 - 48) as usize;
        proof {
            assert(d == digit_val(s@[i as int]));
        }
        let step = match acc.checked_mul(10) {
            Some(x) => x.checked_add(d),
            None => None,
        };
        match step {
            Some(acc2) => {
                acc = acc2;
            },
            None => {
                proof {
                    assert(dec_value(s@.take(i + 1)) > usize::MAX);
                    if all_digits(s@) {
                        lemma_dec_value_take_le(s@, i + 1);
                    }
                }
                return None;
            },
        }
        i += 1;
    }
    proof {
        assert(s@.take(n as int) =~= s@);
    }
    Some(acc)
}

/// The outcome of a selection: the chosen identity, or a report that
/// the input selects nothing.
pub enum Selection {
    Invalid,
    Chosen(Identity),
}

/// Resolves one selection token: parsed as a number `n`, it chooses
/// the identity at the `n`-th sorted key; everything else, `0` and
/// positions past the end included, is invalid and leaves the
/// configuration untouched.
pub fn select_identity(config: &Config, token: &str) -> (r: Selection)
    requires
        config.wf(),
    ensures
        (r is Chosen) == (token@.len() > 0 && all_digits(token@) && 1 <= dec_value(token@)
            && dec_value(token@) <= config@.len()),
        r is Chosen ==> (exists|i: int|
            0 <= i < config@.len() && config@[i].key == sorted_key_seq(config@)[dec_value(token@)
                - 1] && (r->Chosen_0)@ == (IdentityV {
                name: config@[i].name,
                email: config@[i].email,
            })),
{
    let count = config.len();
    match parse_index(token) {
        None => {
            proof {
                assert(config@.len() == count);
            }
            Selection::Invalid
        },
        Some(n) => match config.get_by_index(n) {
            Ok(id) => Selection::Chosen(id),
            Err(SelectError::InvalidSelection) => Selection::Invalid,
        },
    }
}

/// Adds one identity: the key is derived from the display name, the
/// entry is stored last-write-wins, and the pair to hand to the
/// applier is returned exactly when both fields are non-empty.
pub fn add_identity(config: &mut Config, name: String, email: String) -> (apply: Option<
    (String, String),
>)
    requires
        old(config).wf(),
    ensures
        final(config).wf(),
        inserted(
            old(config)@,
            key_of(name@),
            (IdentityV { name: name@, email: email@ }),
            final(config)@,
        ),
        (apply is Some) == (name@.len() > 0 && email@.len() > 0),
        apply is Some ==> (apply->0).0@ == name@ && (apply->0).1@ == email@,
{
    let ghost nv = name@;
    let ghost ev = email@;
    let key = derive_key(name.as_str());
    let apply: Option<(String, String)> = if name.unicode_len() > 0 && email.unicode_len() > 0 {
        Some((name.clone(), email.clone()))
    } else {
        None
    };
    let identity = Identity { name, email };
    proof {
        assert(identity@ == (IdentityV { name: nv, email: ev }));
        assert(key@ == key_of(nv));
    }
    config.insert(key, identity);
    apply
}

/// Why applying an identity failed.
pub struct ApplyError {
    pub message: String,
}

/// Judges the applier's two invocations: setting the name and setting
/// the email must both succeed, and one failure fails the whole
/// application with a single human-readable message.
pub fn apply_outcome(name_ok: bool, email_ok: bool) -> (r: Result<(), ApplyError>)
    ensures
        (r is Ok) == (name_ok && email_ok),
        r is Err ==> (r->Err_0).message@
            == "Failed to set git identity. Make sure you're in a Git repository."@,
{
    if name_ok && email_ok {
        Ok(())
    } else {
        Err(
            ApplyError {
                message: String::from_str(
                    "Failed to set git identity. Make sure you're in a Git repository.",
                ),
            },
        )
    }
}

} // verus!
