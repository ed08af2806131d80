//! The settings of a diagram: its legend, the vertices that are pinned and
//! the part of the data that is drawn.

use vstd::prelude::*;

verus! {

/// One kind of data in the legend.
#[derive(Clone, Debug, PartialEq)]
pub struct LegendEntry {
    /// The title shown to the reader.
    pub title: String,
    /// The value of a dataset's domain that this entry stands for.
    pub domain: Option<String>,
    /// The colour of this entry.
    pub colour: String,
    /// The keywords by which a dataset of this kind is known.
    pub keywords: Option<Vec<String>>,
}

/// The settings. `T` is the type of a coordinate.
#[derive(Clone, Debug, PartialEq)]
pub struct Settings<T> {
    /// The kinds of data to show.
    pub legend: Vec<LegendEntry>,
    /// The datasets that stand at a fixed place, by name.
    pub fixed_points: Vec<(String, (T, T))>,
    /// How the data is selected: "all", "dataset" or "domain".
    pub selection: Option<String>,
    /// The dataset or domain that is selected.
    pub selected: Option<String>,
    /// The number of hops from the selected dataset.
    pub hops: Option<u32>,
    /// The keys of datasets that are drawn whatever their domain.
    pub datasets: Option<Vec<String>>,
    /// The text on rights.
    pub rights_text: Option<String>,
    /// The link of the logo.
    pub logo_link: Option<String>,
    /// The width of the logo.
    pub logo_width: Option<usize>,
    /// The factor of the bubble size.
    pub bubble_size_factor: Option<T>,
}

/// Whether `name` is one of `names`.
pub open spec fn is_among(names: Seq<String>, name: Seq<char>) -> bool {
    exists|i: int| 0 <= i < names.len() && (#[trigger] names[i])@ == name
}

/// Whether `name` is one of `names`.
pub fn contains_name(names: &Vec<String>, name: &String) -> (found: bool)
    ensures
        found == is_among(names@, name@),
{
    let mut i: usize = 0;
    while i < names.len()
        invariant
            i <= names@.len(),
            forall|k: int| 0 <= k < i ==> (#[trigger] names@[k])@ != name@,
        decreases names@.len() - i,
    {
        if names[i] == *name {
            return true;
        }
        i += 1;
    }
    false
}

} // verus!
