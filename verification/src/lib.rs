//! Core logic of a personal bookmark manager: building a nested folder tree
//! from flat records, validating moves against cycles, and converting
//! bookmark collections to and from the Netscape bookmark HTML format.

pub mod htmlin;
pub mod htmlout;
pub mod jsonval;
pub mod linkwarden;
pub mod models;
pub mod moves;
pub mod sorting;
pub mod strutil;
pub mod timestamps;
pub mod tree;

use vstd::prelude::*;

verus! {

/// A run of tab characters, one per nesting level of the exported
/// bookmark document.
pub fn tab_chars(tabs: usize) -> (r: String)
    ensures
        r@ == Seq::new(tabs as nat, |i: int| '\t'),
{
    let mut v: Vec<char> = Vec::new();
    let mut i: usize = 0;
    while i < tabs
        invariant
            i <= tabs,
            v@ == Seq::new(i as nat, |j: int| '\t'),
        decreases tabs - i,
    {
        v.push('\t');
        i = i + 1;
        proof {
            assert(v@ =~= Seq::new(i as nat, |j: int| '\t'));
        }
    }
    proof {
        assert(v@ =~= Seq::new(tabs as nat, |j: int| '\t'));
    }
    crate::strutil::chars_to_string(&v)
}

} // verus!
