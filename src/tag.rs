//! Tags and the language of tag names.

use vstd::prelude::*;

verus! {

/// A character that may appear in a tag name: `[a-z0-9-]`.
pub open spec fn is_tag_char(c: char) -> bool {
    ('a' <= c && c <= 'z') || ('0' <= c && c <= '9') || c == '-'
}

/// A tag name is a non-empty word over `[a-z0-9-]`.
pub open spec fn is_valid_tag(s: Seq<char>) -> bool {
    &&& s.len() > 0
    &&& forall|i: int| 0 <= i < s.len() ==> #[trigger] is_tag_char(s[i])
}

/// Tests one character against `[a-z0-9-]`.
pub fn tag_char(c: char) -> (r: bool)
    ensures
        r == is_tag_char(c),
{
    ('a' <= c && c <= 'z') || ('0' <= c && c <= '9') || c == '-'
}

/// Tests a whole name against the tag language.
pub fn valid_tag(s: &str) -> (r: bool)
    ensures
        r == is_valid_tag(s@),
{
    let n = s.unicode_len();
    if n == 0 {
        return false;
    }
    let mut i: usize = 0;
    while i < n
        invariant
            n == s@.len(),
            i <= n,
            forall|j: int| 0 <= j < i ==> #[trigger] is_tag_char(s@[j]),
        decreases n - i,
    {
        if !tag_char(s.get_char(i)) {
            return false;
        }
        i = i + 1;
    }
    true
}

/// A validated tag name.
#[derive(Clone, Debug, PartialEq, Eq)]
pub struct Tag(String);

impl View for Tag {
    type V = Seq<char>;

    closed spec fn view(&self) -> Seq<char> {
        self.0@
    }
}

impl Tag {
    /// Every tag holds a name of the tag language.
    pub open spec fn wf(&self) -> bool {
        is_valid_tag(self@)
    }

    /// Accepts `s` exactly when it is a valid tag name.
    pub fn parse(s: &str) -> (r: Result<Tag, ()>)
        ensures
            r is Ok <==> is_valid_tag(s@),
            r matches Ok(t) ==> t@ == s@ && t.wf(),
    {
        if valid_tag(s) {
            Ok(Tag(String::from_str(s)))
        } else {
            Err(())
        }
    }

    /// The tag's name.
    pub fn tag(&self) -> (r: &str)
        ensures
            r@ == self@,
    {
        self.0.as_str()
    }

    /// Gives up the tag, returning its name.
    pub fn into_string(self) -> (r: String)
        ensures
            r@ == self@,
    {
        self.0
    }
}

impl std::str::FromStr for Tag {
    type Err = ();

    fn from_str(s: &str) -> Result<Tag, ()> {
        Tag::parse(s)
    }
}

impl From<Tag> for String {
    fn from(t: Tag) -> (r: String) {
        t.0
    }
}

impl vstd::std_specs::convert::FromSpecImpl<Tag> for String {
    open spec fn obeys_from_spec() -> bool {
        true
    }

    closed spec fn from_spec(t: Tag) -> String {
        t.0
    }
}

} // verus!
