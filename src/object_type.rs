use vstd::prelude::*;

verus! {

/// The three kinds of stored object.
#[derive(Debug, Clone, Copy, PartialEq, Eq, Structural)]
pub enum NyxObjectType {
    Commit,
    Tree,
    Blob,
}

/// The lowercase name of an object type, as it stands in frames and tree lines.
pub open spec fn kind_name(t: NyxObjectType) -> Seq<char> {
    match t {
        NyxObjectType::Commit => seq!['c', 'o', 'm', 'm', 'i', 't'],
        NyxObjectType::Tree => seq!['t', 'r', 'e', 'e'],
        NyxObjectType::Blob => seq!['b', 'l', 'o', 'b'],
    }
}

impl NyxObjectType {
    /// The lowercase name of the type.
    pub fn name(&self) -> (r: String)
        ensures
            r@ == kind_name(*self),
    {
        let r = match self {
            NyxObjectType::Commit => String::from_str("commit"),
            NyxObjectType::Tree => String::from_str("tree"),
            NyxObjectType::Blob => String::from_str("blob"),
        };
        proof {
            reveal_strlit("commit");
            reveal_strlit("tree");
            reveal_strlit("blob");
        }
        r
    }
}

} // verus!
