//! What a user may type as an alias, and what is made of it.

use vstd::prelude::*;
use vstd::string::StrSliceExecFns;
use crate::bookmark::BookmarkList;
use crate::bookmark::BookmarkListView;
use crate::error::CatalogError;

verus! {

/// Whether a character counts as white space: what `char::is_whitespace` of
/// the standard library answers for it, the Unicode class `White_Space`.
pub uninterp spec fn is_whitespace(c: char) -> bool;

/// Asks `char::is_whitespace` of the standard library.
///
/// The answer depends on the character alone, so it is given the name
/// `is_whitespace`; which characters those are is not stated here.
#[verifier::external_body]
fn char_is_whitespace(c: char) -> (r: bool)
    ensures
        r == is_whitespace(c),
{
    c.is_whitespace()
}

/// The text without the white space at its front.
pub open spec fn trim_start(s: Seq<char>) -> Seq<char>
    decreases s.len(),
{
    if s.len() > 0 && is_whitespace(s[0]) {
        trim_start(s.drop_first())
    } else {
        s
    }
}

/// The text without the white space at its end.
pub open spec fn trim_end(s: Seq<char>) -> Seq<char>
    decreases s.len(),
{
    if s.len() > 0 && is_whitespace(s.last()) {
        trim_end(s.drop_last())
    } else {
        s
    }
}

/// The text without the white space around it.
pub open spec fn trimmed(s: Seq<char>) -> Seq<char> {
    trim_end(trim_start(s))
}

/// Text that starts with `k` white-space characters and goes on with
/// another kind, or ends there, loses exactly those at its front.
pub proof fn lemma_trim_start(s: Seq<char>, k: int)
    requires
        0 <= k <= s.len(),
        forall|j: int| 0 <= j < k ==> is_whitespace(s[j]),
        k < s.len() ==> !is_whitespace(s[k]),
    ensures
        trim_start(s) == s.skip(k),
    decreases k,
{
    if k == 0 {
        assert(s.skip(0) =~= s);
    } else {
        let rest = s.drop_first();
        assert forall|j: int| 0 <= j < k - 1 implies is_whitespace(rest[j]) by {
            assert(rest[j] == s[j + 1]);
        }
        lemma_trim_start(rest, k - 1);
        assert(rest.skip(k - 1) =~= s.skip(k));
    }
}

/// Text whose white-space tail begins at `k` loses exactly that tail.
pub proof fn lemma_trim_end(s: Seq<char>, k: int)
    requires
        0 <= k <= s.len(),
        forall|j: int| k <= j < s.len() ==> is_whitespace(s[j]),
        k > 0 ==> !is_whitespace(s[k - 1]),
    ensures
        trim_end(s) == s.take(k),
    decreases s.len() - k,
{
    if k == s.len() {
        assert(s.take(k) =~= s);
    } else {
        let rest = s.drop_last();
        lemma_trim_end(rest, k);
        assert(rest.take(k) =~= s.take(k));
    }
}

/// The text without the white space around it, as `str::trim` gives it.
pub fn trim(s: &str) -> (r: &str)
    ensures
        r@ == trimmed(s@),
{
    broadcast use vstd::string::group_string_axioms;

    let n = s.unicode_len();
    let mut start: usize = 0;
    let mut end: usize = 0;
    let mut seen = false;
    let mut i: usize = 0;
    for c in it: s.chars()
        invariant
            it.seq() == s@,
            n == s@.len(),
            i == it.index(),
            seen ==> start < end <= i && !is_whitespace(s@[start as int]) && !is_whitespace(
                s@[end - 1],
            ),
            seen ==> forall|j: int| 0 <= j < start ==> is_whitespace(s@[j]),
            seen ==> forall|j: int| end <= j < i ==> is_whitespace(s@[j]),
            !seen ==> forall|j: int| 0 <= j < i ==> is_whitespace(s@[j]),
    {
        if !char_is_whitespace(c) {
            if !seen {
                start = i;
                seen = true;
            }
            end = i + 1;
        }
        i += 1;
    }
    if !seen {
        start = n;
        end = n;
    }
    let r = s.substring_char(start, end);
    proof {
        let front = s@.skip(start as int);
        lemma_trim_start(s@, start as int);
        lemma_trim_end(front, end - start);
        assert(front.take(end - start) =~= s@.subrange(start as int, end as int));
    }
    r
}

/// Whether the character `c` occurs in `s`.
pub fn has_char(s: &str, c: char) -> (r: bool)
    ensures
        r == s@.contains(c),
{
    broadcast use vstd::string::group_string_axioms;

    let mut found = false;
    for x in it: s.chars()
        invariant
            it.seq() == s@,
            found == (exists|j: int| 0 <= j < it.index() && s@[j] == c),
    {
        if x == c {
            found = true;
        }
    }
    found
}

/// What is wrong with an alias.
#[derive(Clone, Copy, Debug, PartialEq, Eq, Structural)]
pub enum AliasFault {
    /// Nothing is left of it once the white space around it is gone.
    Empty,
    /// It contains `/` or `\`.
    PathSeparator,
    /// Another bookmark is filed under it.
    Taken,
}

impl AliasFault {
    /// The kind of error that the fault amounts to.
    pub open spec fn spec_kind(self) -> CatalogError {
        match self {
            AliasFault::Empty => CatalogError::InvalidAlias,
            AliasFault::PathSeparator => CatalogError::InvalidAlias,
            AliasFault::Taken => CatalogError::DuplicateAlias,
        }
    }

    /// The kind of error that the fault amounts to.
    #[verifier::when_used_as_spec(spec_kind)]
    pub fn kind(self) -> (e: CatalogError)
        ensures
            e == self.spec_kind(),
    {
        match self {
            AliasFault::Empty => CatalogError::InvalidAlias,
            AliasFault::PathSeparator => CatalogError::InvalidAlias,
            AliasFault::Taken => CatalogError::DuplicateAlias,
        }
    }

    /// The text that tells the user what is wrong.
    pub open spec fn spec_message(self) -> Seq<char> {
        match self {
            AliasFault::Empty => "Alias cannot be empty"@,
            AliasFault::PathSeparator => "Alias cannot contain path separators"@,
            AliasFault::Taken => "Alias already exists"@,
        }
    }

    /// The text that tells the user what is wrong.
    pub fn message(self) -> (text: &'static str)
        ensures
            text@ == self.spec_message(),
    {
        match self {
            AliasFault::Empty => "Alias cannot be empty",
            AliasFault::PathSeparator => "Alias cannot contain path separators",
            AliasFault::Taken => "Alias already exists",
        }
    }
}

/// What is wrong with `alias` as a key of `list`, if anything: the first of
/// being empty, containing a path separator, and being taken. An alias that
/// is taken by the bookmark being renamed, `current`, is not counted as taken.
pub open spec fn alias_fault(
    list: BookmarkListView,
    alias: Seq<char>,
    current: Option<Seq<char>>,
) -> Option<AliasFault> {
    if alias.len() == 0 {
        Some(AliasFault::Empty)
    } else if alias.contains('/') || alias.contains('\\') {
        Some(AliasFault::PathSeparator)
    } else if list.alias_index.contains_key(alias) && current != Some(alias) {
        Some(AliasFault::Taken)
    } else {
        None
    }
}

/// The view of an optional alias.
pub open spec fn alias_option_view(current: Option<&str>) -> Option<Seq<char>> {
    match current {
        Some(alias) => Some(alias@),
        None => None,
    }
}

/// Checks an alias as it would be stored: `alias` is taken letter for letter.
pub fn check_alias(list: &BookmarkList, alias: &str, current: Option<&str>) -> (r: Result<
    (),
    AliasFault,
>)
    ensures
        match alias_fault(list@, alias@, alias_option_view(current)) {
            Some(fault) => r == Err::<(), AliasFault>(fault),
            None => r is Ok,
        },
{
    if alias.is_empty() {
        return Err(AliasFault::Empty);
    }
    if has_char(alias, '/') || has_char(alias, '\\') {
        return Err(AliasFault::PathSeparator);
    }
    if list.alias_exists(alias) {
        let same = match current {
            Some(own) => own.to_owned() == alias.to_owned(),
            None => false,
        };
        if !same {
            return Err(AliasFault::Taken);
        }
    }
    Ok(())
}

/// Checks an alias as it was typed: the white space around `input` does not count.
pub fn validate_alias(list: &BookmarkList, input: &str, current: Option<&str>) -> (r: Result<
    (),
    AliasFault,
>)
    ensures
        match alias_fault(list@, trimmed(input@), alias_option_view(current)) {
            Some(fault) => r == Err::<(), AliasFault>(fault),
            None => r is Ok,
        },
{
    check_alias(list, trim(input), current)
}

} // verus!
