//! The texts of a drawing that do not depend on where anything stands: the
//! colour of a bubble, its label and the width of the legend.

use crate::settings::{is_among, LegendEntry, Settings};
use vstd::prelude::*;
use vstd::string::StringSliceAdditionalSpecFns;

verus! {

/// The width given to one letter of a legend title.
pub const LETTER_WIDTH: usize = 17;

/// The least width of the legend.
pub const LEGEND_WIDTH: usize = 310;

/// The longest text that is shown whole, in bytes.
pub const LABEL_BYTES: usize = 9;

/// The number of characters that are kept of a longer text.
pub const LABEL_CHARS: usize = 6;

/// The number of bytes that a text takes, as its length is reported.
pub open spec fn byte_len(text: Seq<char>) -> usize {
    vstd::utf8::encode_utf8(text).len() as usize
}

/// Whether one of `tags` is among `keywords`.
pub open spec fn shares_keyword(tags: Seq<String>, keywords: Seq<String>) -> bool {
    exists|i: int| 0 <= i < tags.len() && is_among(keywords, (#[trigger] tags[i])@)
}

/// Whether a legend entry stands for a dataset of the given domain and
/// keywords: by its domain, by one of its keywords, or because it names
/// keywords and lists none.
pub open spec fn stands_for(e: LegendEntry, domain: Seq<char>, keywords: Seq<String>) -> bool {
    ||| (e.domain matches Some(d) && d@ == domain)
    ||| (e.keywords matches Some(tags) && (tags@.len() == 0 || shares_keyword(tags@, keywords)))
}

/// Whether one of `tags` is among `keywords`.
fn any_shared(tags: &Vec<String>, keywords: &Vec<String>) -> (found: bool)
    ensures
        found == shares_keyword(tags@, keywords@),
{
    let mut i: usize = 0;
    while i < tags.len()
        invariant
            i <= tags@.len(),
            forall|k: int| 0 <= k < i ==> !is_among(keywords@, (#[trigger] tags@[k])@),
        decreases tags@.len() - i,
    {
        if crate::settings::contains_name(keywords, &tags[i]) {
            return true;
        }
        i += 1;
    }
    false
}

/// Whether `e` stands for a dataset of the given domain and keywords.
fn entry_stands_for(e: &LegendEntry, domain: &String, keywords: &Vec<String>) -> (found: bool)
    ensures
        found == stands_for(*e, domain@, keywords@),
{
    let by_domain = match &e.domain {
        Some(d) => *d == *domain,
        None => false,
    };
    if by_domain {
        return true;
    }
    match &e.keywords {
        Some(tags) => tags.len() == 0 || any_shared(tags, keywords),
        None => false,
    }
}

/// The colour of a dataset: that of the first legend entry that stands
/// for it, and white where none does.
pub fn get_colour<T>(domain: &str, keywords: &Vec<String>, settings: &Settings<T>) -> (colour: String)
    ensures
        (exists|i: int|
            0 <= i < settings.legend@.len() && stands_for(
                #[trigger] settings.legend@[i],
                domain@,
                keywords@,
            ) && colour@ == settings.legend@[i].colour@ && forall|j: int|
                0 <= j < i ==> !stands_for(#[trigger] settings.legend@[j], domain@, keywords@)) || (
        colour@ == "white"@ && forall|j: int|
            0 <= j < settings.legend@.len() ==> !stands_for(
                #[trigger] settings.legend@[j],
                domain@,
                keywords@,
            )),
{
    let legend = &settings.legend;
    let wanted = domain.to_owned();
    let mut i: usize = 0;
    while i < legend.len()
        invariant
            i <= legend@.len(),
            *legend == settings.legend,
            wanted@ == domain@,
            forall|j: int| 0 <= j < i ==> !stands_for(#[trigger] legend@[j], domain@, keywords@),
        decreases legend@.len() - i,
    {
        if entry_stands_for(&legend[i], &wanted, keywords) {
            return legend[i].colour.clone();
        }
        i += 1;
    }
    "white".to_owned()
}

/// The first characters of a text that is too long to show.
pub open spec fn shortened(text: Seq<char>) -> Seq<char> {
    if text.len() > LABEL_CHARS {
        text.take(LABEL_CHARS as int)
    } else {
        text
    }
}

/// The text as it is shown in a bubble: whole where it takes up to nine
/// bytes, else its first six characters and three dots.
pub fn shorten_text(text: &str) -> (short: String)
    ensures
        short@ == short_text(text@),
{
    if text.len() > LABEL_BYTES {
        let count = text.unicode_len();
        let kept = if count > LABEL_CHARS {
            LABEL_CHARS
        } else {
            count
        };
        let head = text.substring_char(0, kept);
        assert(head@ == shortened(text@));
        String::from_str(head).concat("...")
    } else {
        text.to_owned()
    }
}

/// What stands for a character in markup: an entity for the double quote,
/// the ampersand, the single quote and the two angle brackets, and the
/// character itself for any other.
pub open spec fn entity(c: char) -> Seq<char> {
    if c == '"' {
        seq!['&', 'q', 'u', 'o', 't', ';']
    } else if c == '&' {
        seq!['&', 'a', 'm', 'p', ';']
    } else if c == '\'' {
        seq!['&', '#', 'x', '2', '7', ';']
    } else if c == '<' {
        seq!['&', 'l', 't', ';']
    } else if c == '>' {
        seq!['&', 'g', 't', ';']
    } else {
        seq![c]
    }
}

/// A text with each character replaced by what stands for it in markup.
pub open spec fn escaped(text: Seq<char>) -> Seq<char>
    decreases text.len(),
{
    if text.len() == 0 {
        Seq::empty()
    } else {
        escaped(text.drop_last()) + entity(text.last())
    }
}

/// Calls `htmlescape::encode_minimal`, which goes through the characters
/// of `s` and writes an entity for each of the five that it escapes and
/// the character itself for every other. The contract is taken from that
/// function and is not proved here.
#[verifier::external_body]
fn encode_minimal(s: &str) -> (encoded: String)
    ensures
        encoded@ == escaped(s@),
{
    htmlescape::encode_minimal(s)
}

/// A text as it is shown in a bubble.
pub open spec fn short_text(text: Seq<char>) -> Seq<char> {
    if byte_len(text) > LABEL_BYTES {
        shortened(text) + "..."@
    } else {
        text
    }
}

/// The label of the bubble of a dataset with the given title, ready to be
/// written into markup: the title, or a stand-in where there is none,
/// shortened and then escaped.
pub fn bubble_label(title: &Option<String>) -> (label: String)
    ensures
        label@ == escaped(
            short_text(
                match title {
                    Some(t) => t@,
                    None => "Unnamed dataset"@,
                },
            ),
        ),
{
    let short = match title {
        Some(t) => shorten_text(t.as_str()),
        None => shorten_text("Unnamed dataset"),
    };
    encode_minimal(short.as_str())
}

/// The width that the titles of the legend ask for.
pub open spec fn widest_title(legend: Seq<LegendEntry>) -> int
    decreases legend.len(),
{
    if legend.len() == 0 {
        0
    } else {
        let rest = widest_title(legend.drop_last());
        let last = byte_len(legend.last().title@) * LETTER_WIDTH;
        if last > rest {
            last
        } else {
            rest
        }
    }
}

/// Whether the width that the titles of the legend ask for can be
/// counted.
pub fn legend_fits<T>(settings: &Settings<T>) -> (ok: bool)
    ensures
        ok == (widest_title(settings.legend@) <= usize::MAX),
{
    let legend = &settings.legend;
    let most = usize::MAX / LETTER_WIDTH;
    let mut i: usize = 0;
    assert(legend@.take(0) == Seq::<LegendEntry>::empty());
    while i < legend.len()
        invariant
            i <= legend@.len(),
            *legend == settings.legend,
            most == usize::MAX / LETTER_WIDTH,
            widest_title(legend@.take(i as int)) <= usize::MAX,
        decreases legend@.len() - i,
    {
        proof {
            assert(legend@.take(i + 1).drop_last() == legend@.take(i as int));
            assert(legend@.take(i + 1).last() == legend@[i as int]);
        }
        if legend[i].title.as_str().len() > most {
            proof {
                lemma_widest_grows(legend@, i + 1);
            }
            return false;
        }
        i += 1;
    }
    assert(legend@.take(legend@.len() as int) == legend@);
    true
}

/// The width of the legend: that of its longest title, at seventeen to
/// the byte, and 310 at least.
pub fn legend_length<T>(settings: &Settings<T>) -> (width: usize)
    requires
        widest_title(settings.legend@) <= usize::MAX,
    ensures
        width == if widest_title(settings.legend@) > LEGEND_WIDTH {
            widest_title(settings.legend@)
        } else {
            LEGEND_WIDTH as int
        },
{
    let legend = &settings.legend;
    let mut m: usize = 0;
    let mut i: usize = 0;
    assert(legend@.take(0) == Seq::<LegendEntry>::empty());
    while i < legend.len()
        invariant
            i <= legend@.len(),
            *legend == settings.legend,
            widest_title(legend@) <= usize::MAX,
            m == widest_title(legend@.take(i as int)),
        decreases legend@.len() - i,
    {
        proof {
            assert(legend@.take(i + 1).drop_last() == legend@.take(i as int));
            assert(legend@.take(i + 1).last() == legend@[i as int]);
            lemma_widest_grows(legend@, i + 1);
        }
        let w = legend[i].title.as_str().len() * LETTER_WIDTH;
        if w > m {
            m = w;
        }
        i += 1;
    }
    assert(legend@.take(legend@.len() as int) == legend@);
    if m > LEGEND_WIDTH {
        m
    } else {
        LEGEND_WIDTH
    }
}

/// No title of a part of the legend asks for more than the whole does.
pub proof fn lemma_widest_grows(legend: Seq<LegendEntry>, i: int)
    requires
        0 <= i <= legend.len(),
    ensures
        widest_title(legend.take(i)) <= widest_title(legend),
        i > 0 ==> byte_len(legend[i - 1].title@) * LETTER_WIDTH <= widest_title(
            legend,
        ),
    decreases legend.len() - i,
{
    if i < legend.len() {
        lemma_widest_grows(legend, i + 1);
        assert(legend.take(i + 1).drop_last() == legend.take(i));
    } else {
        assert(legend.take(i) == legend);
    }
    if i > 0 {
        assert(legend.take(i).drop_last() == legend.take(i - 1));
        assert(legend.take(i).last() == legend[i - 1]);
    }
}

} // verus!
