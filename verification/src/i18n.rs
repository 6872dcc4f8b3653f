//! Locale handling: normalizing locale names and holding the locale chosen
//! for this run. Message formatting itself is the caller's collaborator.

use vstd::prelude::*;

use crate::text::{chars_of, string_from_chars};

verus! {

/// The locale used when the system reports none.
pub open spec fn default_locale() -> Seq<char> {
    "en-US"@
}

/// A normalized locale name: `C` and `POSIX` mean the default locale, and
/// underscores become hyphens (`zh_CN` becomes `zh-CN`).
pub open spec fn normalize_locale_spec(s: Seq<char>) -> Seq<char> {
    if s == "C"@ || s == "POSIX"@ {
        default_locale()
    } else {
        Seq::new(s.len(), |i: int| if s[i] == '_' {
            '-'
        } else {
            s[i]
        })
    }
}

/// Normalize a locale name.
pub fn normalize_locale(locale: &str) -> (r: String)
    ensures
        r@ == normalize_locale_spec(locale@),
{
    if crate::text::str_eq(locale, "C") || crate::text::str_eq(locale, "POSIX") {
        proof {
            reveal_strlit("en-US");
        }
        return String::from_str("en-US");
    }
    let v = chars_of(locale);
    let mut out: Vec<char> = Vec::new();
    let mut i: usize = 0;
    while i < v.len()
        invariant
            i <= v@.len(),
            out@.len() == i,
            forall|k: int|
                0 <= k < i ==> #[trigger] out@[k] == (if v@[k] == '_' {
                    '-'
                } else {
                    v@[k]
                }),
        decreases v@.len() - i,
    {
        if v[i] == '_' {
            out.push('-');
        } else {
            out.push(v[i]);
        }
        i = i + 1;
    }
    proof {
        assert(out@ =~= normalize_locale_spec(locale@));
    }
    string_from_chars(&out)
}

/// The locale state of one run: the current locale and the locales that
/// message bundles exist for.
pub struct I18n {
    pub current: String,
    pub locales: Vec<String>,
}

impl I18n {
    /// Start from a system-reported locale (normalized) and the available
    /// bundle locales.
    pub fn new(system_locale: &str, locales: Vec<String>) -> (r: I18n)
        ensures
            r.current@ == normalize_locale_spec(system_locale@),
            r.locales == locales,
    {
        I18n { current: normalize_locale(system_locale), locales }
    }

    /// Switch to another locale; the name is normalized first.
    pub fn set_locale(&mut self, locale: &str)
        ensures
            final(self).current@ == normalize_locale_spec(locale@),
            final(self).locales == old(self).locales,
    {
        self.current = normalize_locale(locale);
    }

    /// The locale currently in force.
    pub fn locale(&self) -> (r: String)
        ensures
            r == self.current,
    {
        self.current.clone()
    }

    /// The locales that message bundles exist for.
    pub fn available_locales(&self) -> (r: &Vec<String>)
        ensures
            r == self.locales,
    {
        &self.locales
    }
}

} // verus!
