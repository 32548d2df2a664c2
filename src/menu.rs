//! The menu context handed to the home page template: one entry per catalog
//! version, in catalog order.
use vstd::prelude::*;
use crate::catalog::text_of;
use crate::text::same_text;

verus! {

/// One line of the menu: the `"version"` key and its label.
#[derive(Debug, PartialEq, Eq)]
pub struct MenuEntry {
    pub version: String,
}

impl MenuEntry {
    /// The value under `key`; `"version"` is the only key.
    pub fn get(&self, key: &str) -> (r: Option<&String>)
        ensures
            key@ == "version"@ ==> r == Some(&self.version),
            key@ != "version"@ ==> r is None,
    {
        if same_text(key, "version") {
            Some(&self.version)
        } else {
            None
        }
    }
}

/// The render context of the home page: `{"versions": [{"version": label}, ..]}`.
#[derive(Debug, PartialEq, Eq)]
pub struct MenuContext {
    pub versions: Vec<MenuEntry>,
}

impl View for MenuContext {
    type V = Seq<Seq<char>>;

    /// The labels of the menu, in order.
    open spec fn view(&self) -> Seq<Seq<char>> {
        self.versions@.map_values(|e: MenuEntry| e.version@)
    }
}

impl MenuContext {
    /// The value under `key`; `"versions"` is the only key.
    pub fn get(&self, key: &str) -> (r: Option<&Vec<MenuEntry>>)
        ensures
            key@ == "versions"@ ==> r == Some(&self.versions),
            key@ != "versions"@ ==> r is None,
    {
        if same_text(key, "versions") {
            Some(&self.versions)
        } else {
            None
        }
    }
}

/// Projects a catalog (labels, newest first) to the menu context, one entry
/// per label, in the same order.
pub fn make_menu_data(vers: &[String]) -> (r: MenuContext)
    ensures
        r@ == text_of(vers@),
{
    let mut entries: Vec<MenuEntry> = Vec::new();
    let mut i: usize = 0;
    while i < vers.len()
        invariant
            i <= vers@.len(),
            entries@.len() == i,
            forall|k: int| 0 <= k < i ==> (#[trigger] entries@[k]).version@ == vers@[k]@,
        decreases vers@.len() - i,
    {
        entries.push(MenuEntry { version: vers[i].clone() });
        i = i + 1;
    }
    let r = MenuContext { versions: entries };
    assert(r@ =~= text_of(vers@));
    r
}

/// Projecting is a function of the catalog alone: two projections of one
/// catalog are equal, and each gives the catalog back.
pub proof fn lemma_projection_repeatable(vers: Seq<String>, first: MenuContext, second: MenuContext)
    requires
        first@ == text_of(vers),
        second@ == text_of(vers),
    ensures
        first@ == second@,
        first.versions@.len() == vers.len(),
        forall|i: int| 0 <= i < vers.len() ==> (#[trigger] first.versions@[i]).version@ == vers[i]@,
{
    assert(first@.len() == first.versions@.len());
    assert(text_of(vers).len() == vers.len());
    assert forall|i: int| 0 <= i < vers.len() implies (#[trigger] first.versions@[i]).version@
        == vers[i]@ by {
        assert(first@[i] == text_of(vers)[i]);
    }
}

} // verus!
