//! Tags: a name whose file holds the id of the object it points at.
use vstd::prelude::*;
use vstd::string::*;
use vstd::utf8::*;
use crate::text::{char_is_white_space, copy_range, is_white_space, utf8_string};

verus! {

/// `r` is `s` without its leading and trailing white space.
pub open spec fn is_trimmed(s: Seq<char>, r: Seq<char>) -> bool {
    exists|lo: int, hi: int|
        0 <= lo <= hi <= s.len() && r == s.subrange(lo, hi) && (forall|i: int|
            0 <= i < lo ==> is_white_space(#[trigger] s[i])) && (forall|i: int|
            hi <= i < s.len() ==> is_white_space(#[trigger] s[i])) && (lo < hi ==> !is_white_space(
            s[lo],
        ) && !is_white_space(s[hi - 1]))
}

/// `s` without its leading and trailing white space.
pub fn trim(s: &str) -> (r: &str)
    ensures
        is_trimmed(s@, r@),
{
    let n = s.unicode_len();
    let mut lo: usize = 0;
    while lo < n && char_is_white_space(s.get_char(lo))
        invariant
            n == s@.len(),
            lo <= n,
            forall|i: int| 0 <= i < lo ==> is_white_space(#[trigger] s@[i]),
        decreases n - lo,
    {
        lo = lo + 1;
    }
    let mut hi: usize = n;
    while hi > lo && char_is_white_space(s.get_char(hi - 1))
        invariant
            n == s@.len(),
            lo <= hi <= n,
            forall|i: int| hi <= i < n ==> is_white_space(#[trigger] s@[i]),
        decreases hi - lo,
    {
        hi = hi - 1;
    }
    let r = s.substring_char(lo, hi);
    assert(is_trimmed(s@, r@)) by {
        assert(lo < hi ==> !is_white_space(s@[lo as int]) && !is_white_space(s@[hi - 1]));
    }
    r
}

/// Trimming has one result.
pub proof fn lemma_trim_unique(s: Seq<char>, r1: Seq<char>, r2: Seq<char>)
    requires
        is_trimmed(s, r1),
        is_trimmed(s, r2),
    ensures
        r1 == r2,
{
    let (lo1, hi1) = choose|lo: int, hi: int|
        0 <= lo <= hi <= s.len() && r1 == s.subrange(lo, hi) && (forall|i: int|
            0 <= i < lo ==> is_white_space(#[trigger] s[i])) && (forall|i: int|
            hi <= i < s.len() ==> is_white_space(#[trigger] s[i])) && (lo < hi ==> !is_white_space(
            s[lo],
        ) && !is_white_space(s[hi - 1]));
    let (lo2, hi2) = choose|lo: int, hi: int|
        0 <= lo <= hi <= s.len() && r2 == s.subrange(lo, hi) && (forall|i: int|
            0 <= i < lo ==> is_white_space(#[trigger] s[i])) && (forall|i: int|
            hi <= i < s.len() ==> is_white_space(#[trigger] s[i])) && (lo < hi ==> !is_white_space(
            s[lo],
        ) && !is_white_space(s[hi - 1]));
    if lo1 < hi1 && lo2 < hi2 {
        assert(lo1 == lo2);
        assert(hi1 == hi2);
    } else if lo1 < hi1 {
        assert(is_white_space(s[lo1]));
    } else if lo2 < hi2 {
        assert(is_white_space(s[lo2]));
    }
    assert(r1 =~= r2);
}

/// A tag: its name and the id it points at.
pub struct Tag {
    pub name: String,
    pub obj_id: String,
}

impl Tag {
    /// The tag `name` whose file holds `content`: the id is the text of the content without
    /// surrounding white space. Content that is not UTF-8 names no object.
    pub fn from_file(name: &str, content: &[u8]) -> (r: Option<Tag>)
        ensures
            r is Some <==> valid_utf8(content@),
            r matches Some(t) ==> t.name@ == name@ && is_trimmed(decode_utf8(content@), t.obj_id@),
    {
        let bytes = copy_range(content, 0, content.len());
        assert(bytes@ =~= content@);
        match utf8_string(bytes) {
            Some(text) => {
                let id = trim(text.as_str());
                Some(Tag { name: name.to_owned(), obj_id: id.to_owned() })
            },
            None => None,
        }
    }
}

} // verus!
