//! Which directory entries are candidates: the extension allow-list and the
//! hidden-entry rule.
//!
//! The allow-list is given as one comma-separated argument. Each item is
//! trimmed and lower-cased; a file passes if its extension, lower-cased, is
//! one of the items. A file without an extension passes only when there is no
//! allow-list.

use crate::text::text_views;
use vstd::prelude::*;

verus! {

/// The lower-case equivalent of `text`, as `str::to_lowercase` of the
/// standard library computes it.
pub uninterp spec fn lowercase(text: Seq<char>) -> Seq<char>;

/// Whether `c` is white space: whether it has the Unicode property
/// `White_Space`, which these twenty-five characters have and no others.
pub open spec fn is_whitespace(c: char) -> bool {
    let code = c as u32;
    ||| 0x0009 <= code <= 0x000d
    ||| code == 0x0020
    ||| code == 0x0085
    ||| code == 0x00a0
    ||| code == 0x1680
    ||| 0x2000 <= code <= 0x200a
    ||| code == 0x2028
    ||| code == 0x2029
    ||| code == 0x202f
    ||| code == 0x205f
    ||| code == 0x3000
}

/// Calls `str::to_lowercase`.
#[verifier::external_body]
fn to_lowercase(text: &str) -> (lower: String)
    ensures
        lower@ == lowercase(text@),
{
    text.to_lowercase()
}

/// Calls `char::is_whitespace`, which tells whether a character has the
/// Unicode property `White_Space`. The contract spells the property out,
/// character by character.
#[verifier::external_body]
fn char_is_whitespace(c: char) -> (white: bool)
    ensures
        white == is_whitespace(c),
{
    c.is_whitespace()
}

/// The number of white-space characters at the front of `text`.
pub open spec fn leading_whitespace(text: Seq<char>) -> nat
    decreases text.len(),
{
    if text.len() > 0 && is_whitespace(text.first()) {
        1 + leading_whitespace(text.drop_first())
    } else {
        0
    }
}

/// The number of white-space characters at the back of `text`.
pub open spec fn trailing_whitespace(text: Seq<char>) -> nat
    decreases text.len(),
{
    if text.len() > 0 && is_whitespace(text.last()) {
        1 + trailing_whitespace(text.drop_last())
    } else {
        0
    }
}

/// `text` without the white space at its front and at its back.
pub open spec fn trimmed(text: Seq<char>) -> Seq<char> {
    if leading_whitespace(text) == text.len() {
        Seq::empty()
    } else {
        text.subrange(leading_whitespace(text) as int, text.len() - trailing_whitespace(text))
    }
}

/// The position of the first comma of `text`, or the length of `text` if it
/// has none.
pub open spec fn first_comma(text: Seq<char>) -> nat
    decreases text.len(),
{
    if text.len() == 0 || text.first() == ',' {
        0
    } else {
        1 + first_comma(text.drop_first())
    }
}

/// The items of a comma-separated list. A text without a comma is one item,
/// the empty text too.
pub open spec fn comma_separated(text: Seq<char>) -> Seq<Seq<char>>
    decreases text.len(),
{
    let comma = first_comma(text) as int;
    if comma >= text.len() {
        seq![text]
    } else {
        seq![text.take(comma)] + comma_separated(text.skip(comma + 1))
    }
}

/// An item of the allow-list as it is compared: trimmed, then lower-cased.
pub open spec fn normalized(item: Seq<char>) -> Seq<char> {
    lowercase(trimmed(item))
}

/// The items of a list as they are compared.
pub open spec fn normalized_items(items: Seq<Seq<char>>) -> Seq<Seq<char>> {
    items.map_values(|item: Seq<char>| normalized(item))
}

/// The allow-list that the argument `text` stands for.
pub open spec fn allowed_extensions(text: Seq<char>) -> Seq<Seq<char>> {
    normalized_items(comma_separated(text))
}

/// Whether a file with the given extension passes the given allow-list.
pub open spec fn admitted(allowed: Option<Seq<Seq<char>>>, extension: Option<Seq<char>>) -> bool {
    match allowed {
        None => true,
        Some(list) => match extension {
            None => false,
            Some(text) => list.contains(lowercase(text)),
        },
    }
}

/// Whether an entry with the given name is hidden: it has a name that is
/// valid text and begins with a dot.
pub open spec fn hidden(name: Option<Seq<char>>) -> bool {
    match name {
        None => false,
        Some(text) => text.len() > 0 && text[0] == '.',
    }
}

proof fn lemma_leading_whitespace(text: Seq<char>, n: int)
    requires
        0 <= n <= text.len(),
        forall|j: int| 0 <= j < n ==> is_whitespace(#[trigger] text[j]),
        n == text.len() || !is_whitespace(text[n]),
    ensures
        leading_whitespace(text) == n,
    decreases n,
{
    if n > 0 {
        let rest = text.drop_first();
        assert forall|j: int| 0 <= j < n - 1 implies is_whitespace(#[trigger] rest[j]) by {
            assert(rest[j] == text[j + 1]);
        }
        lemma_leading_whitespace(rest, n - 1);
    }
}

proof fn lemma_trailing_whitespace(text: Seq<char>, n: int)
    requires
        0 <= n <= text.len(),
        forall|j: int| text.len() - n <= j < text.len() ==> is_whitespace(#[trigger] text[j]),
        n == text.len() || !is_whitespace(text[text.len() - n - 1]),
    ensures
        trailing_whitespace(text) == n,
    decreases n,
{
    if n > 0 {
        let rest = text.drop_last();
        assert forall|j: int| rest.len() - (n - 1) <= j < rest.len() implies is_whitespace(
            #[trigger] rest[j],
        ) by {
            assert(rest[j] == text[j]);
        }
        lemma_trailing_whitespace(rest, n - 1);
    }
}

proof fn lemma_first_comma(text: Seq<char>, n: int)
    requires
        0 <= n <= text.len(),
        forall|j: int| 0 <= j < n ==> #[trigger] text[j] != ',',
        n == text.len() || text[n] == ',',
    ensures
        first_comma(text) == n,
    decreases n,
{
    if n > 0 {
        let rest = text.drop_first();
        assert forall|j: int| 0 <= j < n - 1 implies #[trigger] rest[j] != ',' by {
            assert(rest[j] == text[j + 1]);
        }
        lemma_first_comma(rest, n - 1);
    }
}

/// A text that neither begins nor ends with white space is its own trimmed
/// form.
pub proof fn law_trimmed_leaves_plain_text_alone(text: Seq<char>)
    requires
        text.len() == 0 || (!is_whitespace(text.first()) && !is_whitespace(text.last())),
    ensures
        trimmed(text) == text,
{
    if text.len() > 0 {
        assert(text.subrange(0, text.len() as int) =~= text);
    }
}

/// A copy of `text` without the white space at its front and at its back.
pub fn trim(text: &str) -> (result: String)
    ensures
        result@ == trimmed(text@),
{
    let n = text.unicode_len();
    let mut start: usize = 0;
    while start < n
        invariant
            n == text@.len(),
            start <= n,
            forall|j: int| 0 <= j < start ==> is_whitespace(#[trigger] text@[j]),
        ensures
            start <= n,
            forall|j: int| 0 <= j < start ==> is_whitespace(#[trigger] text@[j]),
            start == n || !is_whitespace(text@[start as int]),
        decreases n - start,
    {
        if !char_is_whitespace(text.get_char(start)) {
            break ;
        }
        start += 1;
    }
    proof {
        lemma_leading_whitespace(text@, start as int);
    }
    if start == n {
        return String::new();
    }
    let mut end: usize = n;
    while end > start
        invariant
            n == text@.len(),
            start < n,
            !is_whitespace(text@[start as int]),
            start <= end <= n,
            forall|j: int| end <= j < n ==> is_whitespace(#[trigger] text@[j]),
        ensures
            start < end <= n,
            forall|j: int| end <= j < n ==> is_whitespace(#[trigger] text@[j]),
            !is_whitespace(text@[end - 1]),
        decreases end,
    {
        if !char_is_whitespace(text.get_char(end - 1)) {
            break ;
        }
        end -= 1;
    }
    proof {
        lemma_trailing_whitespace(text@, n - end);
    }
    String::from_str(text.substring_char(start, end))
}

/// The allow-list of extensions, or none: then every file passes.
pub struct ExtensionFilter {
    allowed: Option<Vec<String>>,
}

impl View for ExtensionFilter {
    type V = Option<Seq<Seq<char>>>;

    closed spec fn view(&self) -> Option<Seq<Seq<char>>> {
        match self.allowed {
            None => None,
            Some(list) => Some(text_views(list@)),
        }
    }
}

impl ExtensionFilter {
    /// The filter that lets every file pass.
    pub fn any() -> (filter: ExtensionFilter)
        ensures
            filter@ is None,
    {
        ExtensionFilter { allowed: None }
    }

    /// The filter that a comma-separated argument stands for.
    pub fn parse(text: &str) -> (filter: ExtensionFilter)
        ensures
            filter@ == Some(allowed_extensions(text@)),
    {
        let n = text.unicode_len();
        let mut list: Vec<String> = Vec::new();
        let mut start: usize = 0;
        let mut at: usize = 0;
        let ghost mut done: Seq<Seq<char>> = Seq::empty();
        assert(text@.skip(0) =~= text@);
        while at < n
            invariant
                n == text@.len(),
                start <= at <= n,
                forall|j: int| start <= j < at ==> #[trigger] text@[j] != ',',
                comma_separated(text@) == done + comma_separated(text@.skip(start as int)),
                text_views(list@) == normalized_items(done),
            decreases n - at,
        {
            if text.get_char(at) == ',' {
                let ghost rest = text@.skip(start as int);
                proof {
                    assert forall|j: int| 0 <= j < at - start implies #[trigger] rest[j]
                        != ',' by {
                        assert(rest[j] == text@[start + j]);
                    }
                    lemma_first_comma(rest, at - start);
                    assert(rest.take(at - start) =~= text@.subrange(start as int, at as int));
                    assert(rest.skip(at - start + 1) =~= text@.skip(at + 1));
                }
                let item = to_lowercase(trim(text.substring_char(start, at)).as_str());
                let ghost earlier = list@;
                list.push(item);
                proof {
                    let piece = text@.subrange(start as int, at as int);
                    assert(text_views(list@) =~= text_views(earlier).push(normalized(piece)));
                    assert(normalized_items(done.push(piece)) =~= normalized_items(done).push(
                        normalized(piece),
                    ));
                    assert(done + (seq![piece] + comma_separated(text@.skip(at + 1)))
                        =~= done.push(piece) + comma_separated(text@.skip(at + 1)));
                    done = done.push(piece);
                }
                start = at + 1;
            }
            at += 1;
        }
        let ghost rest = text@.skip(start as int);
        proof {
            assert forall|j: int| 0 <= j < n - start implies #[trigger] rest[j] != ',' by {
                assert(rest[j] == text@[start + j]);
            }
            lemma_first_comma(rest, n - start);
            assert(rest =~= text@.subrange(start as int, n as int));
        }
        let item = to_lowercase(trim(text.substring_char(start, n)).as_str());
        let ghost earlier = list@;
        list.push(item);
        proof {
            assert(text_views(list@) =~= text_views(earlier).push(normalized(rest)));
            assert(normalized_items(done.push(rest)) =~= normalized_items(done).push(
                normalized(rest),
            ));
            assert(done + seq![rest] =~= done.push(rest));
        }
        ExtensionFilter { allowed: Some(list) }
    }

    /// The filter for an optional argument: without one, every file passes.
    pub fn from_argument(argument: Option<&str>) -> (filter: ExtensionFilter)
        ensures
            filter@ == match argument {
                None => None,
                Some(text) => Some(allowed_extensions(text@)),
            },
    {
        match argument {
            None => ExtensionFilter::any(),
            Some(text) => ExtensionFilter::parse(text),
        }
    }

    /// Whether a file with the given extension passes.
    pub fn admits(&self, extension: Option<&str>) -> (pass: bool)
        ensures
            pass == admitted(self@, match extension {
                None => None,
                Some(text) => Some(text@),
            }),
    {
        match &self.allowed {
            None => true,
            Some(list) => match extension {
                None => false,
                Some(text) => {
                    let wanted = to_lowercase(text);
                    let ghost items = text_views(list@);
                    let mut i: usize = 0;
                    while i < list.len()
                        invariant
                            i <= list@.len(),
                            items == text_views(list@),
                            self@ == Some(items),
                            extension == Some(text),
                            wanted@ == lowercase(text@),
                            forall|j: int| 0 <= j < i ==> items[j] != wanted@,
                        decreases list@.len() - i,
                    {
                        if list[i] == wanted {
                            assert(items[i as int] == wanted@);
                            return true;
                        }
                        i += 1;
                    }
                    false
                },
            },
        }
    }
}

/// Whether a directory entry is hidden, going by its name. An entry whose
/// name is not valid text is given as `None` and is not hidden.
pub fn is_hidden(name: Option<&str>) -> (result: bool)
    ensures
        result == hidden(match name {
            None => None,
            Some(text) => Some(text@),
        }),
{
    match name {
        None => false,
        Some(text) => !text.is_empty() && text.get_char(0) == '.',
    }
}

/// Whether traversal visits an entry, and descends into it if it is a
/// directory: always, unless hidden entries are ignored and this is one.
pub fn should_visit(ignore_hidden: bool, name: Option<&str>) -> (visit: bool)
    ensures
        visit == !(ignore_hidden && hidden(match name {
            None => None,
            Some(text) => Some(text@),
        })),
{
    if ignore_hidden {
        !is_hidden(name)
    } else {
        true
    }
}

/// How many levels below the root traversal goes: all of them when
/// recursive, otherwise only the entries of the root itself.
pub fn traversal_depth(recursive: bool) -> (depth: usize)
    ensures
        depth == if recursive {
            usize::MAX
        } else {
            1
        },
{
    if recursive {
        usize::MAX
    } else {
        1
    }
}

} // verus!
