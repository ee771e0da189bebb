use vstd::prelude::*;

verus! {

/// A filesystem path held as its list of components.
///
/// The first component may be a root or a drive prefix; rendering a path
/// into the platform's own syntax is left to the caller.
pub struct FsPath {
    pub components: Vec<String>,
}

impl View for FsPath {
    type V = Seq<Seq<char>>;

    open spec fn view(&self) -> Seq<Seq<char>> {
        self.components@.map_values(|c: String| c@)
    }
}

/// Copies a list of strings, keeping each one's contents.
pub fn clone_strings(v: &Vec<String>) -> (r: Vec<String>)
    ensures
        r@.map_values(|c: String| c@) == v@.map_values(|c: String| c@),
{
    let mut r: Vec<String> = Vec::new();
    let mut i: usize = 0;
    while i < v.len()
        invariant
            i <= v.len(),
            r@.len() == i,
            forall|j: int| 0 <= j < i ==> #[trigger] r@[j]@ == v@[j]@,
        decreases v.len() - i,
    {
        r.push(v[i].clone());
        i += 1;
    }
    assert(r@.map_values(|c: String| c@) =~= v@.map_values(|c: String| c@));
    r
}

impl FsPath {
    /// A path made of the given components.
    pub fn from_components(components: Vec<String>) -> (r: FsPath)
        ensures
            r.components@ == components@,
    {
        FsPath { components }
    }

    /// The path extended by one more component.
    pub fn join(&self, part: &str) -> (r: FsPath)
        ensures
            r@ == self@.push(part@),
    {
        let mut components = clone_strings(&self.components);
        components.push(part.to_owned());
        let r = FsPath { components };
        assert(r@ =~= self@.push(part@));
        r
    }

    /// A copy of this path.
    pub fn duplicate(&self) -> (r: FsPath)
        ensures
            r@ == self@,
    {
        FsPath { components: clone_strings(&self.components) }
    }
}

} // verus!
