//! The viewer's input surface: mapping keyboard keys to navigation
//! commands, and keeping the chosen locale consistent with the
//! locales a presentation offers.

use vstd::prelude::*;
use vstd::string::StringSliceAdditionalSpecFns;
use vstd::utf8::encode_utf8_decode_utf8;

verus! {

/// String equality, decided byte by byte.
pub(crate) fn str_eq(a: &str, b: &str) -> (r: bool)
    ensures
        r == (a@ == b@),
{
    let ab: &[u8] = a.as_bytes();
    let bb: &[u8] = b.as_bytes();
    if ab.len() != bb.len() {
        proof {
            assert(a@ != b@);
        }
        return false;
    }
    let mut i: usize = 0;
    while i < ab.len()
        invariant
            0 <= i <= ab@.len() == bb@.len(),
            ab@ == a.spec_bytes(),
            bb@ == b.spec_bytes(),
            forall|j: int| 0 <= j < i ==> ab@[j] == bb@[j],
        decreases ab@.len() - i,
    {
        if ab[i] != bb[i] {
            proof {
                assert(a.spec_bytes() != b.spec_bytes());
                assert(a@ != b@);
            }
            return false;
        }
        i = i + 1;
    }
    proof {
        assert(a.spec_bytes() =~= b.spec_bytes());
        encode_utf8_decode_utf8(a@);
        encode_utf8_decode_utf8(b@);
        assert(a@ == b@);
    }
    true
}

/// A navigation or mode command the viewer can give.
#[derive(Clone, Copy, Debug, PartialEq, Eq, Structural)]
pub enum NavCommand {
    FirstSlide,
    PreviousSlide,
    NextSlide,
    PreviousStep,
    NextStep,
    ToggleNotes,
    TogglePresent,
}

/// The command a key press denotes, if any.
pub open spec fn spec_key_command(key: Seq<char>) -> Option<NavCommand> {
    if key == "ArrowLeft"@ || key == "PageUp"@ {
        Some(NavCommand::PreviousStep)
    } else if key == "ArrowRight"@ || key == "PageDown"@ {
        Some(NavCommand::NextStep)
    } else if key == "ArrowUp"@ {
        Some(NavCommand::PreviousSlide)
    } else if key == "ArrowDown"@ {
        Some(NavCommand::NextSlide)
    } else if key == "Home"@ {
        Some(NavCommand::FirstSlide)
    } else if key == "n"@ {
        Some(NavCommand::ToggleNotes)
    } else if key == "p"@ {
        Some(NavCommand::TogglePresent)
    } else {
        None
    }
}

/// Maps a pressed key to its command. An unrecognized key is a
/// no-op, and only a recognized key may suppress the browser's
/// default action.
pub fn key_command(key: &str) -> (r: Option<NavCommand>)
    ensures
        r == spec_key_command(key@),
{
    if str_eq(key, "ArrowLeft") || str_eq(key, "PageUp") {
        Some(NavCommand::PreviousStep)
    } else if str_eq(key, "ArrowRight") || str_eq(key, "PageDown") {
        Some(NavCommand::NextStep)
    } else if str_eq(key, "ArrowUp") {
        Some(NavCommand::PreviousSlide)
    } else if str_eq(key, "ArrowDown") {
        Some(NavCommand::NextSlide)
    } else if str_eq(key, "Home") {
        Some(NavCommand::FirstSlide)
    } else if str_eq(key, "n") {
        Some(NavCommand::ToggleNotes)
    } else if str_eq(key, "p") {
        Some(NavCommand::TogglePresent)
    } else {
        None
    }
}

/// Whether some offered locale reads `l`.
pub open spec fn spec_offers(locales: Seq<String>, l: Seq<char>) -> bool {
    exists|i: int| 0 <= i < locales.len() && (#[trigger] locales[i])@ == l
}

/// Keeps the chosen locale while the presentation still offers it;
/// otherwise falls back to the first offered locale, or to none.
pub fn select_locale(current: Option<String>, locales: &Vec<String>) -> (r: Option<String>)
    ensures
        match current {
            Some(ref cur) => {
                &&& (spec_offers(locales@, cur@) ==> r == current)
                &&& (!spec_offers(locales@, cur@) && locales@.len() > 0
                    ==> r is Some && r->0@ == locales@[0]@)
                &&& (!spec_offers(locales@, cur@) && locales@.len() == 0 ==> r is None)
            },
            None => {
                &&& (locales@.len() > 0 ==> r is Some && r->0@ == locales@[0]@)
                &&& (locales@.len() == 0 ==> r is None)
            },
        },
{
    match current {
        Some(cur) => {
            let mut i: usize = 0;
            while i < locales.len()
                invariant
                    0 <= i <= locales@.len(),
                    current == Some(cur),
                    forall|j: int| 0 <= j < i ==> (#[trigger] locales@[j])@ != cur@,
                decreases locales@.len() - i,
            {
                if cur == locales[i] {
                    proof {
                        assert((locales@[i as int])@ == cur@);
                        assert(spec_offers(locales@, cur@));
                    }
                    return Some(cur);
                }
                i = i + 1;
            }
            if locales.len() > 0 {
                Some(locales[0].clone())
            } else {
                None
            }
        }
        None => {
            if locales.len() > 0 {
                Some(locales[0].clone())
            } else {
                None
            }
        }
    }
}

} // verus!
