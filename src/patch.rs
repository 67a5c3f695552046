use vstd::prelude::*;

use crate::scrape::{first_group, regex_compiles, regex_group_first};
use crate::text::chars_of;

verus! {

/// One mailed patch, with the metadata read from the feed entry and from
/// its subject tag.
pub struct Patch {
    /// Stable identifier of the message (a URL of the archive).
    pub message_id: String,
    pub title: String,
    pub author: String,
    pub updated: String,
    /// Revision of the series, 1 when the subject names none.
    pub version: usize,
    /// 0 for a cover letter, `i` for patch `i` of its series.
    pub number_in_series: usize,
    /// Identifier of the message this one replies to, if any.
    pub in_reply_to: Option<String>,
}

impl Clone for Patch {
    fn clone(&self) -> (r: Patch)
        ensures
            r == *self,
    {
        let in_reply_to = match &self.in_reply_to {
            Some(s) => Some(s.clone()),
            None => None,
        };
        Patch {
            message_id: self.message_id.clone(),
            title: self.title.clone(),
            author: self.author.clone(),
            updated: self.updated.clone(),
            version: self.version,
            number_in_series: self.number_in_series,
            in_reply_to,
        }
    }
}

/// The revision tag of a subject: `v<digits>` inside its bracketed prefix.
pub const RE_VERSION: &'static str = r"^\x5B[^\x5D]*?\b[vV](\d+)\b[^\x5D]*\x5D";

/// The series position of a subject: `<digits>/<digits>` inside its
/// bracketed prefix.
pub const RE_NUMBER_IN_SERIES: &'static str = r"^\x5B[^\x5D]*?\b(\d+)/\d+\b[^\x5D]*\x5D";

/// Whether every character of `s` is an ASCII digit.
pub open spec fn all_digits(s: Seq<char>) -> bool {
    forall|i: int| 0 <= i < s.len() ==> '0' <= #[trigger] s[i] <= '9'
}

/// The number that the ASCII digits `s` write in base ten.
pub open spec fn digits_value(s: Seq<char>) -> nat
    decreases s.len(),
{
    if s.len() == 0 {
        0
    } else {
        digits_value(s.drop_last()) * 10 + (s.last() as nat - '0' as nat) as nat
    }
}

/// The value of `s` when it is a non-empty run of ASCII digits whose value
/// fits a `usize`.
pub open spec fn parsed_usize(s: Seq<char>) -> Option<nat> {
    if s.len() > 0 && all_digits(s) && digits_value(s) <= usize::MAX {
        Some(digits_value(s))
    } else {
        None
    }
}

/// The number read from a subject by `pattern`, or `default` where the
/// subject has none that fits.
pub open spec fn tag_number(pattern: Seq<char>, title: Seq<char>, default: nat) -> nat {
    match first_group(pattern, title) {
        Some(d) => match parsed_usize(d) {
            Some(v) => v,
            None => default,
        },
        None => default,
    }
}

/// Reads a non-empty run of ASCII digits as a number.
pub fn parse_usize(s: &str) -> (r: Option<usize>)
    ensures
        r matches Some(v) ==> parsed_usize(s@) == Some(v as nat),
        r is None ==> parsed_usize(s@) is None,
{
    let cs = chars_of(s);
    if cs.len() == 0 {
        return None;
    }
    let mut value: usize = 0;
    let mut i: usize = 0;
    while i < cs.len()
        invariant
            cs@ == s@,
            i <= cs.len(),
            all_digits(cs@.take(i as int)),
            value as nat == digits_value(cs@.take(i as int)),
        decreases cs.len() - i,
    {
        proof {
            assert(cs@.take(i + 1).drop_last() =~= cs@.take(i as int));
        }
        let c = cs[i];
        if c < '0' || c > '9' {
            proof {
                lemma_not_digits_after(cs@, i as int);
            }
            return None;
        }
        let d: usize = (c as u32 - '0' as u32) as usize;
        if value > (usize::MAX - d) / 10 {
            proof {
                lemma_too_large_after(cs@, i as int, value as nat, d as nat);
            }
            return None;
        }
        value = value * 10 + d;
        i = i + 1;
        proof {
            assert(all_digits(cs@.take(i as int)));
        }
    }
    proof {
        assert(cs@.take(i as int) =~= cs@);
    }
    Some(value)
}

proof fn lemma_not_digits_after(s: Seq<char>, i: int)
    requires
        0 <= i < s.len(),
        s[i] < '0' || s[i] > '9',
    ensures
        parsed_usize(s) is None,
{
    assert(s.take(s.len() as int) =~= s);
    assert(s.take(s.len() as int)[i] == s[i]);
}

proof fn lemma_too_large_after(s: Seq<char>, i: int, value: nat, d: nat)
    requires
        0 <= i < s.len(),
        '0' <= s[i] <= '9',
        d == s[i] as nat - '0' as nat,
        value == digits_value(s.take(i)),
        all_digits(s.take(i)),
        value > (usize::MAX - d) / 10,
    ensures
        parsed_usize(s) is None,
{
    assert(s.take(i + 1).drop_last() =~= s.take(i));
    let v = digits_value(s.take(i + 1));
    assert(v == value * 10 + d);
    assert(d <= 9);
    assert(v > usize::MAX) by (nonlinear_arith)
        requires
            value > (usize::MAX - d) / 10,
            d <= 9,
            v == value * 10 + d,
    ;
    if all_digits(s) {
        assert(s.take(s.len() as int) =~= s);
        lemma_digits_prefix(s, i + 1, s.len() as int);
    }
}

proof fn lemma_digits_prefix(s: Seq<char>, j: int, k: int)
    requires
        0 <= j <= k <= s.len(),
        all_digits(s.take(k)),
    ensures
        digits_value(s.take(k)) >= digits_value(s.take(j)),
    decreases k - j,
{
    if j < k {
        assert(s.take(k).drop_last() =~= s.take(k - 1));
        assert(all_digits(s.take(k - 1)));
        lemma_digits_prefix(s, j, k - 1);
    }
}

/// `p` with its revision and series position read from its subject, where
/// both subject patterns compile; `p` unchanged otherwise.
pub open spec fn read_metadata(p: Patch) -> Patch {
    if regex_compiles(RE_VERSION@) && regex_compiles(RE_NUMBER_IN_SERIES@) {
        Patch {
            version: tag_number(RE_VERSION@, p.title@, 1) as usize,
            number_in_series: tag_number(RE_NUMBER_IN_SERIES@, p.title@, 0) as usize,
            ..p
        }
    } else {
        p
    }
}

impl Patch {
    /// Reads the series position and revision from the subject's
    /// bracketed prefix: position 0 and revision 1 where it names none.
    /// Returns `false`, changing nothing, only where a pattern fails to
    /// compile.
    pub fn update_patch_metadata(&mut self) -> (ok: bool)
        ensures
            ok == (regex_compiles(RE_VERSION@) && regex_compiles(RE_NUMBER_IN_SERIES@)),
            *final(self) == read_metadata(*old(self)),
            ok ==> final(self).version == tag_number(RE_VERSION@, old(self).title@, 1),
            ok ==> final(self).number_in_series == tag_number(RE_NUMBER_IN_SERIES@, old(self).title@, 0),
    {
        let version = match read_tag(RE_VERSION, self.title.as_str(), 1) {
            Some(v) => v,
            None => {
                return false;
            },
        };
        let number_in_series = match read_tag(RE_NUMBER_IN_SERIES, self.title.as_str(), 0) {
            Some(n) => n,
            None => {
                return false;
            },
        };
        self.version = version;
        self.number_in_series = number_in_series;
        true
    }
}

fn read_tag(pattern: &str, title: &str, default: usize) -> (r: Option<usize>)
    ensures
        r is Some <==> regex_compiles(pattern@),
        r matches Some(v) ==> v == tag_number(pattern@, title@, default as nat),
{
    match regex_group_first(pattern, title) {
        Some(Some(d)) => match parse_usize(d.as_str()) {
            Some(v) => Some(v),
            None => Some(default),
        },
        Some(None) => Some(default),
        None => None,
    }
}

} // verus!
