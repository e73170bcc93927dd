//! The catalog restriction surface: the optional explicit palette of
//! texture names, and the filtering mode that either allows only a list of
//! names or blocks a list of names.

use vstd::prelude::*;

verus! {

/// What splitting a character sequence on a separator yields: the
/// (possibly empty) runs between separator occurrences, in order. An empty
/// input gives one empty piece, and each separator ends the piece before
/// it.
pub open spec fn split_spec(s: Seq<char>, sep: char) -> Seq<Seq<char>>
    decreases s.len(),
{
    if s.len() == 0 {
        seq![Seq::<char>::empty()]
    } else if s.last() == sep {
        split_spec(s.drop_last(), sep).push(Seq::<char>::empty())
    } else {
        let p = split_spec(s.drop_last(), sep);
        p.update(p.len() - 1, p.last().push(s.last()))
    }
}

/// Relies on `str::split` with a `char` separator and `str::to_owned`: the
/// substrings between separator occurrences, in order, exactly as
/// `split_spec` describes them.
#[verifier::external_body]
pub(crate) fn split_on(s: &str, sep: char) -> (r: Vec<String>)
    ensures
        r@.map_values(|p: String| p@) == split_spec(s@, sep),
{
    s.split(sep).map(str::to_owned).collect()
}

/// Splitting always yields at least one piece.
pub proof fn lemma_split_nonempty(s: Seq<char>, sep: char)
    ensures
        split_spec(s, sep).len() >= 1,
    decreases s.len(),
{
    if s.len() > 0 {
        lemma_split_nonempty(s.drop_last(), sep);
    }
}

/// Relies on `str`'s `PartialEq`: equality of the character contents.
#[verifier::external_body]
pub(crate) fn str_eq(a: &str, b: &str) -> (r: bool)
    ensures
        r == (a@ == b@),
{
    a == b
}

/// An explicit comma-separated list of texture names limiting the catalog.
pub struct BlockPalette(pub Vec<String>);

impl core::str::FromStr for BlockPalette {
    type Err = String;

    fn from_str(s: &str) -> Result<Self, Self::Err> {
        Ok(BlockPalette::parse(s))
    }
}

impl BlockPalette {
    /// Splits a comma-separated list of texture names; every input is
    /// accepted and the names are the runs between the commas.
    pub fn parse(s: &str) -> (r: BlockPalette)
        ensures
            r.0@.map_values(|p: String| p@) == split_spec(s@, ','),
            r.0.len() >= 1,
    {
        let parts = split_on(s, ',');
        proof {
            lemma_split_nonempty(s@, ',');
            assert(parts@.map_values(|p: String| p@).len() == parts@.len());
        }
        BlockPalette(parts)
    }
}

/// Which textures take part in a run: only those on the allow-list, or all
/// but those on the block-list.
pub enum TextureFilteringMode {
    AllowList(Vec<String>),
    BlockList(Vec<String>),
}

/// Whether a list of names carries the given name.
pub open spec fn list_has_spec(l: Seq<String>, name: Seq<char>) -> bool {
    exists|i: int| 0 <= i < l.len() && #[trigger] l[i]@ == name
}

impl TextureFilteringMode {
    /// Whether a texture of this name takes part in the run.
    pub open spec fn admits_spec(self, name: Seq<char>) -> bool {
        match self {
            TextureFilteringMode::AllowList(l) => list_has_spec(l@, name),
            TextureFilteringMode::BlockList(l) => !list_has_spec(l@, name),
        }
    }

    /// Decides whether a texture of this name takes part in the run.
    pub fn admits(&self, name: &String) -> (r: bool)
        ensures
            r == self.admits_spec(name@),
    {
        match self {
            TextureFilteringMode::AllowList(l) => list_has(l, name),
            TextureFilteringMode::BlockList(l) => !list_has(l, name),
        }
    }
}

/// Whether the list carries the name.
fn list_has(l: &Vec<String>, name: &String) -> (r: bool)
    ensures
        r == list_has_spec(l@, name@),
{
    let mut i: usize = 0;
    while i < l.len()
        invariant
            i <= l.len(),
            forall|j: int| 0 <= j < i ==> #[trigger] l[j]@ != name@,
        decreases l.len() - i,
    {
        if str_eq(l[i].as_str(), name.as_str()) {
            return true;
        }
        i += 1;
    }
    false
}

} // verus!
