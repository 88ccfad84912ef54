//! The language of the user interface.

use crate::filter;
use crate::text;
use crate::text::{chars_of, chars_start_with, same_text, to_ascii_lower};
use vstd::prelude::*;

verus! {

/// The language that a setting asks for: `zh` and `en` name one, and anything else
/// asks for that of the system, which is Chinese if the name of its locale begins
/// with `zh`.
pub open spec fn language(stored: Seq<char>, locale: Seq<char>) -> Seq<char> {
    if stored == "zh"@ {
        "zh-CN"@
    } else if stored == "en"@ {
        "en-US"@
    } else if text::starts_with(filter::ascii_lowered(locale), "zh"@) {
        "zh-CN"@
    } else {
        "en-US"@
    }
}

/// The text with its ASCII letters in lower case.
pub fn ascii_lowercase(s: &[char]) -> (r: Vec<char>)
    ensures
        r@ == filter::ascii_lowered(s@),
{
    let mut lowered: Vec<char> = Vec::new();
    let n: usize = s.len();
    for i in 0..n
        invariant
            n == s@.len(),
            lowered@ == filter::ascii_lowered(s@.take(i as int)),
    {
        lowered.push(to_ascii_lower(s[i]));
        assert(filter::ascii_lowered(s@.take(i + 1)) == filter::ascii_lowered(
            s@.take(i as int),
        ).push(text::ascii_lower(s@[i as int])));
    }
    assert(s@.take(n as int) == s@);
    lowered
}

/// The language that a setting asks for, given the name of the system's locale,
/// which is empty if it is not known.
pub fn language_code(stored: &str, locale: &str) -> (r: &'static str)
    ensures
        r@ == language(stored@, locale@),
{
    if same_text(stored, "zh") {
        return "zh-CN";
    }
    if same_text(stored, "en") {
        return "en-US";
    }
    let lowered = ascii_lowercase(chars_of(locale).as_slice());
    if chars_start_with(lowered.as_slice(), chars_of("zh").as_slice()) {
        "zh-CN"
    } else {
        "en-US"
    }
}

/// A language that is set is used, whatever the system speaks; otherwise that of the
/// system is, and Chinese is told by the first two letters of its locale in any case.
pub proof fn language_is_told(stored: Seq<char>, locale: Seq<char>)
    ensures
        stored == "zh"@ ==> language(stored, locale) == "zh-CN"@,
        stored == "en"@ ==> language(stored, locale) == "en-US"@,
        stored != "zh"@ && stored != "en"@ ==> (if locale.len() >= 2 && (locale[0] == 'z'
            || locale[0] == 'Z') && (locale[1] == 'h' || locale[1] == 'H') {
            language(stored, locale) == "zh-CN"@
        } else {
            language(stored, locale) == "en-US"@
        }),
{
    reveal_strlit("zh");
    reveal_strlit("en");
    assert("zh"@ != "en"@) by {
        assert("zh"@[0] == 'z');
        assert("en"@[0] == 'e');
    }
    let low = filter::ascii_lowered(locale);
    if locale.len() >= 2 {
        let head = low.take(2);
        assert(head[0] == text::ascii_lower(locale[0]));
        assert(head[1] == text::ascii_lower(locale[1]));
        if (locale[0] == 'z' || locale[0] == 'Z') && (locale[1] == 'h' || locale[1] == 'H') {
            assert(head =~= "zh"@);
        }
    }
}

} // verus!
