//! What the tab strip shows for the Trails of a window.

use vstd::prelude::*;

use crate::model::display_path_of;
use crate::trail::{id_view, trail_location, Trail, TrailId, TrailView};

verus! {

/// One tab: a Trail as the tab strip shows it.
#[derive(Debug)]
pub struct Tab {
    /// The Trail the tab stands for.
    pub id: TrailId,
    /// The Trail's name.
    pub label: String,
    /// Where the Trail is, as text.
    pub tooltip: Option<String>,
    /// The tab of the active Trail.
    pub active: bool,
    /// The Trail is pinned.
    pub pinned: bool,
    /// The tab offers to close its Trail: only when there is more than one.
    pub closable: bool,
}

/// The tab strip: shown only when there is more than one Trail.
#[derive(Debug)]
pub struct TabStrip {
    pub visible: bool,
    pub tabs: Vec<Tab>,
}

/// The tooltip of a tab: where its Trail is, as text.
pub open spec fn tooltip_of(t: TrailView) -> Option<Seq<char>> {
    match trail_location(t) {
        Some(l) => Some(display_path_of(l)),
        None => None,
    }
}

/// `tab` shows Trail `t` of a strip of `count` Trails whose active identifier is `active`.
pub open spec fn shows(tab: Tab, t: TrailView, count: int, active: Option<Seq<char>>) -> bool {
    &&& tab.id@ == t.id
    &&& tab.label@ == t.name
    &&& match tab.tooltip {
        Some(s) => tooltip_of(t) == Some(s@),
        None => tooltip_of(t) is None,
    }
    &&& tab.active == (active == Some(t.id))
    &&& tab.pinned == t.pinned
    &&& tab.closable == (count > 1)
}

/// The words of the pin button: `Unpin Tab` for a pinned Trail, `Pin Tab` otherwise.
pub fn pin_tooltip(pinned: bool) -> (r: &'static str)
    ensures
        pinned ==> r@ == seq!['U', 'n', 'p', 'i', 'n', ' ', 'T', 'a', 'b'],
        !pinned ==> r@ == seq!['P', 'i', 'n', ' ', 'T', 'a', 'b'],
{
    proof {
        reveal_strlit("Unpin Tab");
        reveal_strlit("Pin Tab");
    }
    if pinned {
        "Unpin Tab"
    } else {
        "Pin Tab"
    }
}

/// The tab strip for `trails` when `active` is the active identifier: one tab per Trail, in
/// order.
pub fn tab_strip(trails: &Vec<Trail>, active: &Option<TrailId>) -> (r: TabStrip)
    ensures
        r.visible == (trails@.len() > 1),
        r.tabs@.len() == trails@.len(),
        forall|i: int|
            0 <= i < trails@.len() ==> shows(
                #[trigger] r.tabs@[i],
                trails@[i]@,
                trails@.len() as int,
                id_view(*active),
            ),
{
    let count = trails.len();
    let mut tabs: Vec<Tab> = Vec::new();
    let mut i: usize = 0;
    while i < count
        invariant
            i <= count == trails@.len(),
            tabs@.len() == i,
            forall|k: int|
                0 <= k < i ==> shows(
                    #[trigger] tabs@[k],
                    trails@[k]@,
                    count as int,
                    id_view(*active),
                ),
        decreases count - i,
    {
        let t = &trails[i];
        let tooltip = match t.active_location() {
            Some(l) => Some(l.display_path()),
            None => None,
        };
        let is_active = match active {
            Some(a) => *a == t.id,
            None => false,
        };
        let tab = Tab {
            id: t.id.clone(),
            label: t.name.clone(),
            tooltip,
            active: is_active,
            pinned: t.pinned,
            closable: count > 1,
        };
        tabs.push(tab);
        i = i + 1;
    }
    TabStrip { visible: count > 1, tabs }
}

} // verus!
