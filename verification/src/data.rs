//! The datasets of a cloud and the links between them.

use vstd::prelude::*;

verus! {

/// A link from a dataset to a target dataset.
#[derive(Debug)]
pub struct Link {
    /// The key of the dataset that the link points to.
    pub target: String,
    pub value: String,
}

/// What a link says.
pub struct LinkView {
    pub target: Seq<char>,
    pub value: Seq<char>,
}

impl View for Link {
    type V = LinkView;

    open spec fn view(&self) -> LinkView {
        LinkView { target: self.target@, value: self.value@ }
    }
}

impl Clone for Link {
    fn clone(&self) -> (copy: Link)
        ensures
            copy@ == self@,
    {
        Link { target: self.target.clone(), value: self.value.clone() }
    }
}

/// A number that may have been written as a number or as text. Text that
/// is no number counts as nothing.
#[derive(Debug, Clone, Copy)]
pub struct IntLike(pub Option<i64>);

impl IntLike {
    /// The number, or zero where there is none.
    pub fn get(&self) -> (value: i64)
        ensures
            value == match self.0 {
                Some(x) => x,
                None => 0,
            },
    {
        match self.0 {
            Some(x) => x,
            None => 0,
        }
    }
}

impl From<i64> for IntLike {
    fn from(x: i64) -> (value: IntLike) {
        IntLike(Some(x))
    }
}

impl vstd::std_specs::convert::FromSpecImpl<i64> for IntLike {
    open spec fn obeys_from_spec() -> bool {
        true
    }

    open spec fn from_spec(x: i64) -> IntLike {
        IntLike(Some(x))
    }
}

/// A dataset.
#[derive(Debug)]
pub struct Dataset {
    /// The description, by language.
    pub description: Vec<(String, Option<String>)>,
    pub title: Option<String>,
    /// The links to other datasets.
    pub links: Vec<Link>,
    pub identifier: String,
    /// The domain; empty where it is not known.
    pub domain: String,
    /// The number of triples.
    pub triples: IntLike,
    pub keywords: Vec<String>,
}

/// What a dataset says.
pub struct DatasetView {
    pub description: Seq<(Seq<char>, Option<Seq<char>>)>,
    pub title: Option<Seq<char>>,
    pub links: Seq<LinkView>,
    pub identifier: Seq<char>,
    pub domain: Seq<char>,
    pub triples: Option<i64>,
    pub keywords: Seq<Seq<char>>,
}

/// The text of a string that may be missing.
pub open spec fn text_of(s: Option<String>) -> Option<Seq<char>> {
    match s {
        Some(t) => Some(t@),
        None => None,
    }
}

impl View for Dataset {
    type V = DatasetView;

    open spec fn view(&self) -> DatasetView {
        DatasetView {
            description: Seq::new(
                self.description@.len(),
                |i: int| (self.description@[i].0@, text_of(self.description@[i].1)),
            ),
            title: text_of(self.title),
            links: Seq::new(self.links@.len(), |i: int| self.links@[i]@),
            identifier: self.identifier@,
            domain: self.domain@,
            triples: self.triples.0,
            keywords: Seq::new(self.keywords@.len(), |i: int| self.keywords@[i]@),
        }
    }
}

/// A copy of a string that may be missing.
fn clone_text(s: &Option<String>) -> (copy: Option<String>)
    ensures
        text_of(copy) == text_of(*s),
{
    match s {
        Some(t) => Some(t.clone()),
        None => None,
    }
}

impl Clone for Dataset {
    fn clone(&self) -> (copy: Dataset)
        ensures
            copy@ == self@,
    {
        let mut description: Vec<(String, Option<String>)> = Vec::new();
        let mut i: usize = 0;
        while i < self.description.len()
            invariant
                i <= self.description@.len(),
                description@.len() == i,
                forall|k: int|
                    0 <= k < i ==> (#[trigger] description@[k]).0@ == self.description@[k].0@
                        && text_of(description@[k].1) == text_of(self.description@[k].1),
            decreases self.description@.len() - i,
        {
            description.push((self.description[i].0.clone(), clone_text(&self.description[i].1)));
            i += 1;
        }
        let mut links: Vec<Link> = Vec::new();
        let mut i: usize = 0;
        while i < self.links.len()
            invariant
                i <= self.links@.len(),
                links@.len() == i,
                forall|k: int| 0 <= k < i ==> (#[trigger] links@[k])@ == self.links@[k]@,
            decreases self.links@.len() - i,
        {
            links.push(self.links[i].clone());
            i += 1;
        }
        let mut keywords: Vec<String> = Vec::new();
        let mut i: usize = 0;
        while i < self.keywords.len()
            invariant
                i <= self.keywords@.len(),
                keywords@.len() == i,
                forall|k: int| 0 <= k < i ==> (#[trigger] keywords@[k])@ == self.keywords@[k]@,
            decreases self.keywords@.len() - i,
        {
            keywords.push(self.keywords[i].clone());
            i += 1;
        }
        let copy = Dataset {
            description,
            title: clone_text(&self.title),
            links,
            identifier: self.identifier.clone(),
            domain: self.domain.clone(),
            triples: self.triples,
            keywords,
        };
        assert(copy@.description =~= self@.description);
        assert(copy@.links =~= self@.links);
        assert(copy@.keywords =~= self@.keywords);
        copy
    }
}

} // verus!
