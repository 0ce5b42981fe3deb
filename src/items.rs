//! Handles to menus and menu entries, and the operations on them.
//!
//! A handle is an index into a [`MenuSystem`]; every operation takes the
//! system it belongs to.
use vstd::prelude::*;
use crate::accelerator::Accelerator;
use crate::engine::{fanned_out, same_but_projections, same_content, same_structure, Attribute, ItemKind, MenuSystem, NativeOp, Owner, Role, WindowBar};
use crate::error::MenuError;
use crate::mnemonic::{from_native_spec, lemma_portable_round_trip, portable_ok, to_native_spec};
use crate::predefined::PredefinedKind;
use crate::text::{chars_of, string_of};

verus! {

/// A menu root: a menu bar in any number of windows, and a context menu.
#[derive(Debug, Clone, Copy, PartialEq, Eq, Structural)]
pub struct Menu {
    pub index: usize,
}

/// An entry that holds other entries.
#[derive(Debug, Clone, Copy, PartialEq, Eq, Structural)]
pub struct Submenu {
    pub index: usize,
}

/// A plain entry with a text.
#[derive(Debug, Clone, Copy, PartialEq, Eq, Structural)]
pub struct MenuItem {
    pub index: usize,
}

/// An entry whose action the platform defines.
#[derive(Debug, Clone, Copy, PartialEq, Eq, Structural)]
pub struct PredefinedMenuItem {
    pub index: usize,
}

/// An entry with a checked state.
#[derive(Debug, Clone, Copy, PartialEq, Eq, Structural)]
pub struct CheckMenuItem {
    pub index: usize,
}

/// Any entry, as it stands in a menu.
#[derive(Debug, Clone, Copy, PartialEq, Eq, Structural)]
pub enum MenuItemKind {
    Submenu(Submenu),
    Normal(MenuItem),
    Predefined(PredefinedMenuItem),
    Check(CheckMenuItem),
}

impl MenuItemKind {
    pub open spec fn entry(self) -> usize {
        match self {
            MenuItemKind::Submenu(x) => x.index,
            MenuItemKind::Normal(x) => x.index,
            MenuItemKind::Predefined(x) => x.index,
            MenuItemKind::Check(x) => x.index,
        }
    }

    /// The entry the handle stands for.
    pub fn index(&self) -> (r: usize)
        ensures
            r == self.entry(),
    {
        match self {
            MenuItemKind::Submenu(x) => x.index,
            MenuItemKind::Normal(x) => x.index,
            MenuItemKind::Predefined(x) => x.index,
            MenuItemKind::Check(x) => x.index,
        }
    }

    /// The handle is an entry of `sys`.
    pub open spec fn valid(self, sys: &MenuSystem) -> bool {
        (self.entry() as int) < sys.n_entries()
    }
}

/// The handle's kind agrees with the entry's kind.
pub open spec fn kind_matches(k: MenuItemKind, kind: ItemKind) -> bool {
    match k {
        MenuItemKind::Submenu(_) => kind == ItemKind::Submenu,
        MenuItemKind::Normal(_) => kind == ItemKind::Normal,
        MenuItemKind::Predefined(_) => kind is Predefined,
        MenuItemKind::Check(_) => kind == ItemKind::Check,
    }
}

/// The handle of the right kind for entry `e`.
pub fn kind_of(sys: &MenuSystem, e: usize) -> (r: MenuItemKind)
    requires
        (e as int) < sys.n_entries(),
    ensures
        r.entry() == e,
        kind_matches(r, sys.entries@[e as int].kind),
{
    match sys.entries[e].kind {
        ItemKind::Submenu => MenuItemKind::Submenu(Submenu { index: e }),
        ItemKind::Normal => MenuItemKind::Normal(MenuItem { index: e }),
        ItemKind::Predefined(_) => MenuItemKind::Predefined(PredefinedMenuItem { index: e }),
        ItemKind::Check => MenuItemKind::Check(CheckMenuItem { index: e }),
    }
}

/// The handles of the entries listed in `list`, in order.
fn kinds_of(sys: &MenuSystem, list: &Vec<usize>) -> (r: Vec<MenuItemKind>)
    requires
        forall|i: int| 0 <= i < list@.len() ==> (#[trigger] list@[i] as int) < sys.n_entries(),
    ensures
        r@.len() == list@.len(),
        forall|i: int| 0 <= i < r@.len() ==> (#[trigger] r@[i]).entry() == list@[i],
        forall|i: int| 0 <= i < r@.len() ==> kind_matches(#[trigger] r@[i], sys.entries@[list@[i] as int].kind),
{
    let mut r: Vec<MenuItemKind> = Vec::new();
    let mut i: usize = 0;
    while i < list.len()
        invariant
            i <= list@.len(),
            r@.len() == i,
            forall|k: int| 0 <= k < list@.len() ==> (#[trigger] list@[k] as int) < sys.n_entries(),
            forall|k: int| 0 <= k < i ==> (#[trigger] r@[k]).entry() == list@[k],
            forall|k: int| 0 <= k < i ==> kind_matches(#[trigger] r@[k], sys.entries@[list@[k] as int].kind),
        decreases list@.len() - i,
    {
        r.push(kind_of(sys, list[i]));
        i = i + 1;
    }
    r
}

/// Every handle in `items` is a detached entry that is neither `s` nor an
/// ancestor of `s`, and no entry is named twice: all of them can be placed
/// in `s`.
pub open spec fn placeable(sys: &MenuSystem, s: int, items: Seq<MenuItemKind>) -> bool {
    &&& forall|k: int|
        0 <= k < items.len() ==> {
            &&& (#[trigger] items[k]).valid(sys)
            &&& sys.entries@[items[k].entry() as int].owner == Owner::Detached
            &&& !sys.is_ancestor(items[k].entry() as int, s)
        }
    &&& forall|a: int, b: int|
        0 <= a < items.len() && 0 <= b < items.len() && a != b ==> #[trigger] items[a].entry() != #[trigger] items[b].entry()
}

/// Tells why `items` cannot all be placed in submenu `s`, if they cannot.
fn check_placeable(sys: &MenuSystem, s: usize, items: &Vec<MenuItemKind>) -> (r: Option<MenuError>)
    requires
        sys.wf(),
        (s as int) < sys.n_entries(),
        forall|i: int| 0 <= i < items@.len() ==> (#[trigger] items@[i]).valid(sys),
    ensures
        r is None <==> placeable(sys, s as int, items@),
        r is Some ==> r == Some(MenuError::AlreadyAttached) || r == Some(MenuError::WouldContainItself),
{
    let mut k: usize = 0;
    while k < items.len()
        invariant
            k <= items@.len(),
            sys.wf(),
            (s as int) < sys.n_entries(),
            forall|i: int| 0 <= i < items@.len() ==> (#[trigger] items@[i]).valid(sys),
            forall|i: int|
                0 <= i < k ==> {
                    &&& sys.entries@[(#[trigger] items@[i]).entry() as int].owner == Owner::Detached
                    &&& !sys.is_ancestor(items@[i].entry() as int, s as int)
                },
            forall|a: int, b: int| 0 <= a < k && 0 <= b < k && a != b ==> #[trigger] items@[a].entry() != #[trigger] items@[b].entry(),
        decreases items@.len() - k,
    {
        let e = items[k].index();
        proof {
            assert(items@[k as int].valid(sys));
        }
        match sys.entries[e].owner {
            Owner::Detached => {},
            _ => {
                return Some(MenuError::AlreadyAttached);
            },
        }
        if sys.is_nested(s, e) {
            return Some(MenuError::WouldContainItself);
        }
        let mut j: usize = 0;
        while j < k
            invariant
                j <= k < items@.len(),
                e == items@[k as int].entry(),
                forall|i: int| 0 <= i < j ==> (#[trigger] items@[i]).entry() != e,
            decreases k - j,
        {
            if items[j].index() == e {
                return Some(MenuError::AlreadyAttached);
            }
            j = j + 1;
        }
        proof {
            assert forall|a: int, b: int| 0 <= a < k + 1 && 0 <= b < k + 1 && a != b implies #[trigger] items@[a].entry() != #[trigger] items@[b].entry() by {
                if a == k as int {
                    assert(items@[b].entry() != e);
                } else if b == k as int {
                    assert(items@[a].entry() != e);
                }
            }
        }
        k = k + 1;
    }
    None
}

impl Menu {
    pub open spec fn valid(self, sys: &MenuSystem) -> bool {
        (self.index as int) < sys.menus@.len()
    }

    /// A menu with no entries.
    pub fn new(sys: &mut MenuSystem) -> (r: Menu)
        requires
            old(sys).wf(),
        ensures
            final(sys).wf(),
            r.valid(final(sys)),
            final(sys).menus@[r.index as int].entries@.len() == 0,
    {
        Menu { index: sys.add_menu() }
    }

    /// Adds `item` at the end of the menu, in every window it is shown in.
    pub fn append(&self, sys: &mut MenuSystem, item: MenuItemKind) -> (r: Result<(), MenuError>)
        requires
            old(sys).wf(),
            self.valid(old(sys)),
            item.valid(old(sys)),
        ensures
            final(sys).wf(),
            final(sys).contents_kept(*old(sys)),
            final(sys).menus@.len() == old(sys).menus@.len(),
            old(sys).entries@[item.entry() as int].owner != Owner::Detached ==> r == Err::<(), MenuError>(MenuError::AlreadyAttached),
            r is Err ==> *final(sys) == *old(sys),
            old(sys).entries@[item.entry() as int].owner == Owner::Detached ==> r is Ok
                && final(sys).menus@[self.index as int].entries@ == old(sys).menus@[self.index as int].entries@.push(item.entry()),
            final(sys).creates_new_widgets(*old(sys)),
    {
        let pos = sys.menus[self.index].entries.len();
        let r = sys.insert_into_menu(self.index, item.index(), pos);
        proof {
            if r is Ok {
                assert(old(sys).menus@[self.index as int].entries@.insert(pos as int, item.entry())
                    =~= old(sys).menus@[self.index as int].entries@.push(item.entry()));
            }
        }
        r
    }

    /// Adds `item` at the start of the menu.
    pub fn prepend(&self, sys: &mut MenuSystem, item: MenuItemKind) -> (r: Result<(), MenuError>)
        requires
            old(sys).wf(),
            self.valid(old(sys)),
            item.valid(old(sys)),
        ensures
            final(sys).wf(),
            final(sys).contents_kept(*old(sys)),
            final(sys).menus@.len() == old(sys).menus@.len(),
            old(sys).entries@[item.entry() as int].owner != Owner::Detached ==> r == Err::<(), MenuError>(MenuError::AlreadyAttached),
            r is Err ==> *final(sys) == *old(sys),
            old(sys).entries@[item.entry() as int].owner == Owner::Detached ==> r is Ok
                && final(sys).menus@[self.index as int].entries@ == old(sys).menus@[self.index as int].entries@.insert(0, item.entry()),
            final(sys).creates_new_widgets(*old(sys)),
    {
        sys.insert_into_menu(self.index, item.index(), 0)
    }

    /// Inserts `item` at `position`; a position past the end is refused.
    pub fn insert(&self, sys: &mut MenuSystem, item: MenuItemKind, position: usize) -> (r: Result<(), MenuError>)
        requires
            old(sys).wf(),
            self.valid(old(sys)),
            item.valid(old(sys)),
        ensures
            final(sys).wf(),
            final(sys).contents_kept(*old(sys)),
            final(sys).menus@.len() == old(sys).menus@.len(),
            position > old(sys).menus@[self.index as int].entries@.len() ==> r == Err::<(), MenuError>(MenuError::OutOfRange),
            position <= old(sys).menus@[self.index as int].entries@.len() && old(sys).entries@[item.entry() as int].owner != Owner::Detached
                ==> r == Err::<(), MenuError>(MenuError::AlreadyAttached),
            r is Err ==> *final(sys) == *old(sys),
            position <= old(sys).menus@[self.index as int].entries@.len() && old(sys).entries@[item.entry() as int].owner == Owner::Detached
                ==> r is Ok && final(sys).menus@[self.index as int].entries@ == old(sys).menus@[self.index as int].entries@.insert(position as int, item.entry()),
            final(sys).creates_new_widgets(*old(sys)),
    {
        sys.insert_into_menu(self.index, item.index(), position)
    }

    /// Removes `item`, matched by identifier, from the menu's top level and
    /// from every native root of the menu.
    pub fn remove(&self, sys: &mut MenuSystem, item: MenuItemKind) -> (r: Result<(), MenuError>)
        requires
            old(sys).wf(),
            self.valid(old(sys)),
            item.valid(old(sys)),
        ensures
            final(sys).wf(),
            final(sys).contents_kept(*old(sys)),
            final(sys).menus@.len() == old(sys).menus@.len(),
            !old(sys).menus@[self.index as int].entries@.contains(item.entry()) ==> r == Err::<(), MenuError>(MenuError::NotAChildOfThisMenu) && *final(sys) == *old(sys),
            old(sys).menus@[self.index as int].entries@.contains(item.entry()) ==> r is Ok
                && final(sys).entries@[item.entry() as int].owner == Owner::Detached
                && exists|i: int| 0 <= i < old(sys).menus@[self.index as int].entries@.len() && old(sys).menus@[self.index as int].entries@[i] == item.entry()
                    && #[trigger] final(sys).menus@[self.index as int].entries@ == old(sys).menus@[self.index as int].entries@.remove(i),
            final(sys).destroys_only(*old(sys)),
    {
        sys.remove_from_menu(self.index, item.index())
    }

    /// The menu's top-level entries, in order.
    pub fn items(&self, sys: &MenuSystem) -> (r: Vec<MenuItemKind>)
        requires
            sys.wf(),
            self.valid(sys),
        ensures
            r@.len() == sys.menus@[self.index as int].entries@.len(),
            forall|i: int| 0 <= i < r@.len() ==> (#[trigger] r@[i]).entry() == sys.menus@[self.index as int].entries@[i],
            forall|i: int| 0 <= i < r@.len() ==> kind_matches(#[trigger] r@[i], sys.entries@[sys.menus@[self.index as int].entries@[i] as int].kind),
    {
        proof {
            reveal(MenuSystem::menu_lists_ok);
        }
        kinds_of(sys, &sys.menus[self.index].entries)
    }

    /// Shows the menu as the menu bar of `window`, projecting it there.
    pub fn init_for_window(&self, sys: &mut MenuSystem, window: u64) -> (bar: usize)
        requires
            old(sys).wf(),
            self.valid(old(sys)),
        ensures
            final(sys).wf(),
            final(sys).same_logic(*old(sys)),
            final(sys).same_menu_entries(*old(sys)),
            final(sys).alive(bar as int),
            final(sys).widgets@[bar as int].role == (Role::Bar { menu: self.index }),
            final(sys).container_ok(bar as int),
            exists|i: int| 0 <= i < final(sys).menus@[self.index as int].bars@.len() && #[trigger] final(sys).menus@[self.index as int].bars@[i] == (WindowBar { window, bar }),
            forall|h: int| 0 <= h < old(sys).widgets@.len() ==> #[trigger] final(sys).widgets@[h] == old(sys).widgets@[h],
            (exists|i: int| 0 <= i < old(sys).menus@[self.index as int].bars@.len() && #[trigger] old(sys).menus@[self.index as int].bars@[i].window == window)
                ==> *final(sys) == *old(sys),
            final(sys).creates_new_widgets(*old(sys)),
    {
        sys.init_for_window(self.index, window)
    }

    /// Detaches the menu from `window`: its native projection there and the
    /// menu bar itself are destroyed; fails when the menu was never shown
    /// there.
    pub fn remove_for_window(&self, sys: &mut MenuSystem, window: u64) -> (r: Result<(), MenuError>)
        requires
            old(sys).wf(),
            self.valid(old(sys)),
        ensures
            final(sys).wf(),
            (forall|i: int| 0 <= i < old(sys).menus@[self.index as int].bars@.len() ==> #[trigger] old(sys).menus@[self.index as int].bars@[i].window != window)
                <==> r == Err::<(), MenuError>(MenuError::NotInitialized),
            r is Err ==> *final(sys) == *old(sys),
            r is Ok ==> final(sys).same_logic(*old(sys)) && final(sys).same_menu_entries(*old(sys))
                && exists|i: int| 0 <= i < old(sys).menus@[self.index as int].bars@.len() && #[trigger] old(sys).menus@[self.index as int].bars@[i].window == window
                    && !final(sys).alive(old(sys).menus@[self.index as int].bars@[i].bar as int),
    {
        sys.remove_for_window(self.index, window)
    }

    /// Hides the menu bar of `window`; fails when the menu was never shown
    /// there.
    pub fn hide_for_window(&self, sys: &mut MenuSystem, window: u64) -> (r: Result<(), MenuError>)
        requires
            old(sys).wf(),
            self.valid(old(sys)),
        ensures
            final(sys).wf(),
            final(sys).entries == old(sys).entries,
            final(sys).menus == old(sys).menus,
            final(sys).widgets == old(sys).widgets,
            r is Err <==> forall|i: int| 0 <= i < old(sys).menus@[self.index as int].bars@.len() ==> #[trigger] old(sys).menus@[self.index as int].bars@[i].window != window,
            r is Err ==> r == Err::<(), MenuError>(MenuError::NotInitialized),
            r is Ok ==> exists|i: int| #[trigger] old(sys).first_bar(self.index as int, window, i)
                && final(sys).ops@ == old(sys).ops@.push(NativeOp::Hide { handle: old(sys).menus@[self.index as int].bars@[i].bar }),
            r is Err ==> *final(sys) == *old(sys),
    {
        sys.show_bar(self.index, window, false)
    }

    /// Shows the menu bar of `window` again; fails when the menu was never
    /// shown there.
    pub fn show_for_window(&self, sys: &mut MenuSystem, window: u64) -> (r: Result<(), MenuError>)
        requires
            old(sys).wf(),
            self.valid(old(sys)),
        ensures
            final(sys).wf(),
            final(sys).entries == old(sys).entries,
            final(sys).menus == old(sys).menus,
            final(sys).widgets == old(sys).widgets,
            r is Err <==> forall|i: int| 0 <= i < old(sys).menus@[self.index as int].bars@.len() ==> #[trigger] old(sys).menus@[self.index as int].bars@[i].window != window,
            r is Err ==> r == Err::<(), MenuError>(MenuError::NotInitialized),
            r is Ok ==> exists|i: int| #[trigger] old(sys).first_bar(self.index as int, window, i)
                && final(sys).ops@ == old(sys).ops@.push(NativeOp::Show { handle: old(sys).menus@[self.index as int].bars@[i].bar }),
            r is Err ==> *final(sys) == *old(sys),
    {
        sys.show_bar(self.index, window, true)
    }

    /// The menu's context-menu form, projected on first use.
    pub fn context_menu(&self, sys: &mut MenuSystem) -> (root: usize)
        requires
            old(sys).wf(),
            self.valid(old(sys)),
        ensures
            final(sys).wf(),
            final(sys).same_logic(*old(sys)),
            final(sys).same_menu_entries(*old(sys)),
            final(sys).alive(root as int),
            final(sys).widgets@[root as int].role == (Role::Bar { menu: self.index }),
            final(sys).container_ok(root as int),
            final(sys).menus@[self.index as int].context == Some(root),
            forall|h: int| 0 <= h < old(sys).widgets@.len() ==> #[trigger] final(sys).widgets@[h] == old(sys).widgets@[h],
            old(sys).menus@[self.index as int].context is Some ==> *final(sys) == *old(sys),
            final(sys).creates_new_widgets(*old(sys)),
    {
        sys.context_menu(self.index)
    }
}


impl Submenu {
    pub open spec fn valid(self, sys: &MenuSystem) -> bool {
        &&& (self.index as int) < sys.n_entries()
        &&& sys.entries@[self.index as int].kind == ItemKind::Submenu
    }

    /// The entry's identifier.
    pub fn id(&self, sys: &MenuSystem) -> (r: u32)
        requires
            (self.index as int) < sys.n_entries(),
        ensures
            r == sys.entries@[self.index as int].id,
    {
        sys.entries[self.index].id
    }

    /// This handle as an entry of a menu.
    pub fn kind(&self) -> (r: MenuItemKind)
        ensures
            r.entry() == self.index,
    {
        MenuItemKind::Submenu(*self)
    }

    /// The text, read back from the first native widget when there is one.
    /// It equals the text that was set whenever that text is well-formed.
    pub fn text(&self, sys: &MenuSystem) -> (r: String)
        requires
            sys.wf(),
            (self.index as int) < sys.n_entries(),
        ensures
            r@ == (if sys.entries@[self.index as int].projections@.len() > 0 {
                from_native_spec(to_native_spec(sys.entries@[self.index as int].text@))
            } else {
                sys.entries@[self.index as int].text@
            }),
            portable_ok(sys.entries@[self.index as int].text@) ==> r@ == sys.entries@[self.index as int].text@,
    {
        let v = sys.text(self.index);
        proof {
            if portable_ok(sys.entries@[self.index as int].text@) {
                lemma_portable_round_trip(sys.entries@[self.index as int].text@);
            }
        }
        string_of(&v)
    }

    /// Sets the text, in the entry and in every native widget of it.
    pub fn set_text(&self, sys: &mut MenuSystem, text: &str)
        requires
            old(sys).wf(),
            (self.index as int) < old(sys).n_entries(),
        ensures
            final(sys).wf(),
            final(sys).entries@[self.index as int].text@ == text@,
            forall|h: int|
                #[trigger] final(sys).alive(h) && final(sys).widgets@[h].role is Item
                    && final(sys).widgets@[h].role->entry == self.index ==> final(sys).widgets@[h].label@ == to_native_spec(text@),
            final(sys).entries@.len() == old(sys).entries@.len(),
            forall|i: int| 0 <= i < final(sys).n_entries() && i != self.index ==> #[trigger] final(sys).entries@[i] == old(sys).entries@[i],
            same_structure(final(sys).entries@[self.index as int], old(sys).entries@[self.index as int]),
            final(sys).entries@[self.index as int].projections == old(sys).entries@[self.index as int].projections,
            final(sys).entries@[self.index as int].accelerator == old(sys).entries@[self.index as int].accelerator,
            final(sys).entries@[self.index as int].syncing == old(sys).entries@[self.index as int].syncing,
            final(sys).menus == old(sys).menus,
            final(sys).entries@[self.index as int].enabled == old(sys).entries@[self.index as int].enabled,
            final(sys).entries@[self.index as int].checked == old(sys).entries@[self.index as int].checked,
            fanned_out(final(sys).ops@, old(sys).ops@, Attribute::Text, final(sys).entries@[self.index as int]),
    {
        let v = chars_of(text);
        sys.set_text(self.index, v);
    }

    /// A submenu with no entries.
    pub fn new(sys: &mut MenuSystem, text: &str, enabled: bool) -> (r: Submenu)
        requires
            old(sys).wf(),
            old(sys).ids.next < u32::MAX,
        ensures
            final(sys).wf(),
            r.valid(final(sys)),
            final(sys).entries@[r.index as int].text@ == text@,
            final(sys).entries@[r.index as int].enabled == enabled,
            final(sys).entries@[r.index as int].children@.len() == 0,
            final(sys).entries@[r.index as int].owner == Owner::Detached,
            final(sys).entries@.len() == old(sys).entries@.len() + 1,
            forall|e: int| 0 <= e < old(sys).entries@.len() ==> #[trigger] final(sys).entries@[e] == old(sys).entries@[e],
            final(sys).entries@.len() == old(sys).entries@.len() + 1,
            r.index == old(sys).entries@.len(),
            forall|e: int| 0 <= e < old(sys).entries@.len() ==> #[trigger] final(sys).entries@[e] == old(sys).entries@[e],
            final(sys).entries@[r.index as int].id == old(sys).ids.next,
            final(sys).ids.next == old(sys).ids.next + 1,
            final(sys).entries@[r.index as int].projections@.len() == 0,
            !final(sys).entries@[r.index as int].syncing,
            final(sys).menus == old(sys).menus,
            final(sys).widgets == old(sys).widgets,
    {
        let t = chars_of(text);
        Submenu { index: sys.add_entry(t, enabled, false, None, ItemKind::Submenu) }
    }

    /// A submenu with no entries and the identifier `id`. Refused, with
    /// nothing changed, when an entry already carries `id` or `id` is
    /// `u32::MAX`.
    pub fn with_id(sys: &mut MenuSystem, id: u32, text: &str, enabled: bool) -> (r: Option<Submenu>)
        requires
            old(sys).wf(),
            old(sys).ids.next < u32::MAX,
        ensures
            final(sys).wf(),
            r is None <==> id == u32::MAX || exists|e: int| 0 <= e < old(sys).n_entries() && #[trigger] old(sys).entries@[e].id == id,
            r is None ==> *final(sys) == *old(sys),
            r is Some ==> {
                let m = r->Some_0;
                &&& m.valid(final(sys))
                &&& m.index == old(sys).entries@.len()
                &&& final(sys).entries@.len() == old(sys).entries@.len() + 1
                &&& forall|e: int| 0 <= e < old(sys).entries@.len() ==> #[trigger] final(sys).entries@[e] == old(sys).entries@[e]
                &&& final(sys).entries@[m.index as int].id == id
                &&& final(sys).entries@[m.index as int].text@ == text@
                &&& final(sys).entries@[m.index as int].enabled == enabled
                &&& final(sys).entries@[m.index as int].children@.len() == 0
                &&& final(sys).entries@[m.index as int].owner == Owner::Detached
                &&& final(sys).entries@[m.index as int].projections@.len() == 0
                &&& final(sys).ids.next > id
            },
    {
        if id == u32::MAX || sys.id_in_use(id) {
            return None;
        }
        let t = chars_of(text);
        Some(Submenu { index: sys.add_entry_with_id(id, t, enabled, false, None, ItemKind::Submenu) })
    }

    /// A submenu with the identifier `id` and `items` appended, all or
    /// none; nothing changes when it is refused.
    pub fn with_id_and_items(sys: &mut MenuSystem, id: u32, text: &str, enabled: bool, items: &Vec<MenuItemKind>) -> (r: Option<Result<Submenu, MenuError>>)
        requires
            old(sys).wf(),
            old(sys).ids.next < u32::MAX,
            forall|i: int| 0 <= i < items@.len() ==> (#[trigger] items@[i]).valid(old(sys)),
        ensures
            final(sys).wf(),
            r is None <==> id == u32::MAX || exists|e: int| 0 <= e < old(sys).n_entries() && #[trigger] old(sys).entries@[e].id == id,
            r is None ==> *final(sys) == *old(sys),
            r matches Some(Ok(m)) ==> m.valid(final(sys)) && final(sys).entries@[m.index as int].id == id
                && final(sys).entries@[m.index as int].children@ == items@.map_values(|k: MenuItemKind| k.entry()),
    {
        let menu = match Submenu::with_id(sys, id, text, enabled) {
            Some(m) => m,
            None => {
                return None;
            },
        };
        let ghost s1 = *sys;
        let count = items.len();
        proof {
            assert(count == items@.len());
            assert(sys.entries@[menu.index as int].children@ =~= Seq::<usize>::empty());
            assert forall|i: int| 0 <= i < items@.len() implies (#[trigger] items@[i]).valid(sys) by {
                assert(items@[i].valid(old(sys)));
            }
        }
        match menu.append_items(sys, items) {
            Ok(()) => {
                proof {
                    let start = Seq::<usize>::empty();
                    assert(start + items@.map_values(|k: MenuItemKind| k.entry()) =~= items@.map_values(|k: MenuItemKind| k.entry()));
                    assert(same_content(sys.entries@[menu.index as int], s1.entries@[menu.index as int]));
                }
                Some(Ok(menu))
            },
            Err(e) => Some(Err(e)),
        }
    }

    /// The submenu's identifier, taking the handle.
    pub fn into_id(self, sys: &MenuSystem) -> (r: u32)
        requires
            (self.index as int) < sys.n_entries(),
        ensures
            r == sys.entries@[self.index as int].id,
    {
        sys.entries[self.index].id
    }

    /// Adds `item` at the end of the submenu, under every native container
    /// of it.
    pub fn append(&self, sys: &mut MenuSystem, item: MenuItemKind) -> (r: Result<(), MenuError>)
        requires
            old(sys).wf(),
            self.valid(old(sys)),
            item.valid(old(sys)),
        ensures
            final(sys).wf(),
            final(sys).contents_kept(*old(sys)),
            old(sys).entries@[item.entry() as int].owner != Owner::Detached ==> r == Err::<(), MenuError>(MenuError::AlreadyAttached),
            r is Err ==> *final(sys) == *old(sys),
            final(sys).entries@.len() == old(sys).entries@.len(),
            forall|e: int| 0 <= e < final(sys).n_entries() ==> (#[trigger] final(sys).entries@[e]).kind == old(sys).entries@[e].kind,
            old(sys).entries@[item.entry() as int].owner == Owner::Detached
                && !old(sys).is_ancestor(item.entry() as int, self.index as int) ==> r is Ok,
            r is Ok ==> final(sys).entries@[self.index as int].children@ == old(sys).entries@[self.index as int].children@.push(item.entry()),
            final(sys).creates_new_widgets(*old(sys)),
    {
        let pos = sys.entries[self.index].children.len();
        let r = sys.insert_into_submenu(self.index, item.index(), pos);
        proof {
            if r is Ok {
                assert(old(sys).entries@[self.index as int].children@.insert(pos as int, item.entry())
                    =~= old(sys).entries@[self.index as int].children@.push(item.entry()));
            }
        }
        r
    }

    /// Adds `item` at the start of the submenu.
    pub fn prepend(&self, sys: &mut MenuSystem, item: MenuItemKind) -> (r: Result<(), MenuError>)
        requires
            old(sys).wf(),
            self.valid(old(sys)),
            item.valid(old(sys)),
        ensures
            final(sys).wf(),
            final(sys).contents_kept(*old(sys)),
            old(sys).entries@[item.entry() as int].owner != Owner::Detached ==> r == Err::<(), MenuError>(MenuError::AlreadyAttached),
            r is Err ==> *final(sys) == *old(sys),
            final(sys).entries@.len() == old(sys).entries@.len(),
            forall|e: int| 0 <= e < final(sys).n_entries() ==> (#[trigger] final(sys).entries@[e]).kind == old(sys).entries@[e].kind,
            old(sys).entries@[item.entry() as int].owner == Owner::Detached
                && !old(sys).is_ancestor(item.entry() as int, self.index as int) ==> r is Ok,
            r is Ok ==> final(sys).entries@[self.index as int].children@ == old(sys).entries@[self.index as int].children@.insert(0, item.entry()),
            final(sys).creates_new_widgets(*old(sys)),
    {
        sys.insert_into_submenu(self.index, item.index(), 0)
    }

    /// Inserts `item` at `position`; a position past the end is refused,
    /// and so is an item that would end up inside itself.
    pub fn insert(&self, sys: &mut MenuSystem, item: MenuItemKind, position: usize) -> (r: Result<(), MenuError>)
        requires
            old(sys).wf(),
            self.valid(old(sys)),
            item.valid(old(sys)),
        ensures
            final(sys).wf(),
            final(sys).contents_kept(*old(sys)),
            position > old(sys).entries@[self.index as int].children@.len() ==> r == Err::<(), MenuError>(MenuError::OutOfRange),
            position <= old(sys).entries@[self.index as int].children@.len() && old(sys).entries@[item.entry() as int].owner != Owner::Detached
                ==> r == Err::<(), MenuError>(MenuError::AlreadyAttached),
            position <= old(sys).entries@[self.index as int].children@.len() && old(sys).entries@[item.entry() as int].owner == Owner::Detached
                && old(sys).is_ancestor(item.entry() as int, self.index as int) ==> r == Err::<(), MenuError>(MenuError::WouldContainItself),
            r is Err ==> *final(sys) == *old(sys),
            final(sys).entries@.len() == old(sys).entries@.len(),
            forall|e: int| 0 <= e < final(sys).n_entries() ==> (#[trigger] final(sys).entries@[e]).kind == old(sys).entries@[e].kind,
            position <= old(sys).entries@[self.index as int].children@.len() && old(sys).entries@[item.entry() as int].owner == Owner::Detached
                && !old(sys).is_ancestor(item.entry() as int, self.index as int) ==> r is Ok,
            r is Ok ==> final(sys).entries@[self.index as int].children@ == old(sys).entries@[self.index as int].children@.insert(position as int, item.entry())
                && final(sys).entries@[item.entry() as int].owner == Owner::InSubmenu(self.index)
                && final(sys).entries@[self.index as int].owner == old(sys).entries@[self.index as int].owner
                && forall|e: int| 0 <= e < final(sys).n_entries() && e != self.index && e != item.entry()
                    ==> same_but_projections(#[trigger] final(sys).entries@[e], old(sys).entries@[e]),
            old(sys).entries@[self.index as int].projections@.len() == 0 ==> final(sys).entries@[self.index as int].projections@.len() == 0,
            final(sys).creates_new_widgets(*old(sys)),
    {
        sys.insert_into_submenu(self.index, item.index(), position)
    }

    /// Removes `item`, matched by identifier, from the submenu and from
    /// every native container of it.
    pub fn remove(&self, sys: &mut MenuSystem, item: MenuItemKind) -> (r: Result<(), MenuError>)
        requires
            old(sys).wf(),
            self.valid(old(sys)),
            item.valid(old(sys)),
        ensures
            final(sys).wf(),
            final(sys).contents_kept(*old(sys)),
            !old(sys).entries@[self.index as int].children@.contains(item.entry()) ==> r == Err::<(), MenuError>(MenuError::NotAChildOfThisMenu) && *final(sys) == *old(sys),
            old(sys).entries@[self.index as int].children@.contains(item.entry()) ==> r is Ok
                && final(sys).entries@[item.entry() as int].owner == Owner::Detached
                && exists|i: int| 0 <= i < old(sys).entries@[self.index as int].children@.len() && old(sys).entries@[self.index as int].children@[i] == item.entry()
                    && #[trigger] final(sys).entries@[self.index as int].children@ == old(sys).entries@[self.index as int].children@.remove(i),
            final(sys).destroys_only(*old(sys)),
    {
        sys.remove_from_submenu(self.index, item.index())
    }

    /// Removes the entry at `position` and returns it; a position past the
    /// end removes nothing.
    pub fn remove_at(&self, sys: &mut MenuSystem, position: usize) -> (r: Option<MenuItemKind>)
        requires
            old(sys).wf(),
            self.valid(old(sys)),
        ensures
            final(sys).wf(),
            final(sys).contents_kept(*old(sys)),
            position >= old(sys).entries@[self.index as int].children@.len() ==> r.is_none() && *final(sys) == *old(sys),
            position < old(sys).entries@[self.index as int].children@.len() ==> r is Some
                && r->0.entry() == old(sys).entries@[self.index as int].children@[position as int]
                && final(sys).entries@[self.index as int].children@ == old(sys).entries@[self.index as int].children@.remove(position as int),
            final(sys).destroys_only(*old(sys)),
    {
        if position >= sys.entries[self.index].children.len() {
            return None;
        }
        let e = sys.entries[self.index].children[position];
        proof {
            sys.lemma_child(self.index as int, position as int);
            sys.lemma_owner_clause(self.index as int);
        }
        let k = kind_of(sys, e);
        let ghost s0 = *sys;
        let r = sys.remove_from_submenu(self.index, e);
        proof {
            assert(s0.entries@[self.index as int].children@.contains(e));
            let i = choose|i: int| 0 <= i < s0.entries@[self.index as int].children@.len() && s0.entries@[self.index as int].children@[i] == e
                && #[trigger] sys.entries@[self.index as int].children@ == s0.entries@[self.index as int].children@.remove(i);
            assert(s0.entries@[self.index as int].children@.no_duplicates());
            assert(i == position as int);
        }
        Some(k)
    }

    /// Adds `items` at the end, in order. Either all of them are added or,
    /// when one of them cannot be, none is and the state is unchanged.
    pub fn append_items(&self, sys: &mut MenuSystem, items: &Vec<MenuItemKind>) -> (r: Result<(), MenuError>)
        requires
            old(sys).wf(),
            self.valid(old(sys)),
            forall|i: int| 0 <= i < items@.len() ==> (#[trigger] items@[i]).valid(old(sys)),
            old(sys).entries@[self.index as int].children@.len() + items@.len() <= usize::MAX,
        ensures
            final(sys).wf(),
            final(sys).contents_kept(*old(sys)),
            r is Err ==> *final(sys) == *old(sys),
            r is Ok <==> placeable(old(sys), self.index as int, items@),
            r is Ok ==> final(sys).entries@[self.index as int].children@ == old(sys).entries@[self.index as int].children@
                + items@.map_values(|k: MenuItemKind| k.entry()),
            old(sys).entries@[self.index as int].projections@.len() == 0 ==> final(sys).entries@[self.index as int].projections@.len() == 0,
    {
        let pos = sys.entries[self.index].children.len();
        let r = self.insert_items(sys, items, pos);
        proof {
            let c = old(sys).entries@[self.index as int].children@;
            assert(c.subrange(0, pos as int) =~= c);
            assert(c.subrange(pos as int, c.len() as int) =~= Seq::<usize>::empty());
            assert(c + items@.map_values(|k: MenuItemKind| k.entry()) + Seq::<usize>::empty() =~= c + items@.map_values(|k: MenuItemKind| k.entry()));
            if items@.len() == 0 {
                assert(c + items@.map_values(|k: MenuItemKind| k.entry()) =~= c);
            }
        }
        r
    }

    /// Inserts `items` in order from `position` on. Either all of them are
    /// inserted or, when one of them cannot be, none is and the state is
    /// unchanged.
    pub fn insert_items(&self, sys: &mut MenuSystem, items: &Vec<MenuItemKind>, position: usize) -> (r: Result<(), MenuError>)
        requires
            old(sys).wf(),
            self.valid(old(sys)),
            forall|i: int| 0 <= i < items@.len() ==> (#[trigger] items@[i]).valid(old(sys)),
            position + items@.len() <= usize::MAX,
        ensures
            final(sys).wf(),
            final(sys).contents_kept(*old(sys)),
            r is Err ==> *final(sys) == *old(sys),
            items@.len() == 0 ==> r is Ok && *final(sys) == *old(sys),
            items@.len() > 0 && position > old(sys).entries@[self.index as int].children@.len() ==> r == Err::<(), MenuError>(MenuError::OutOfRange),
            items@.len() > 0 && position <= old(sys).entries@[self.index as int].children@.len()
                ==> (r is Ok <==> placeable(old(sys), self.index as int, items@)),
            r is Ok && items@.len() > 0 ==> position <= old(sys).entries@[self.index as int].children@.len()
                && final(sys).entries@[self.index as int].children@ == old(sys).entries@[self.index as int].children@.subrange(0, position as int)
                + items@.map_values(|k: MenuItemKind| k.entry())
                + old(sys).entries@[self.index as int].children@.subrange(position as int, old(sys).entries@[self.index as int].children@.len() as int),
            old(sys).entries@[self.index as int].projections@.len() == 0 ==> final(sys).entries@[self.index as int].projections@.len() == 0,
    {
        let ghost s0 = *sys;
        let ghost sc = self.index as int;
        if items.len() == 0 {
            proof {
                assert forall|e: int| 0 <= e < sys.entries@.len() implies same_content(#[trigger] sys.entries@[e], s0.entries@[e]) by {}
            }
            return Ok(());
        }
        if position > sys.entries[self.index].children.len() {
            return Err(MenuError::OutOfRange);
        }
        match check_placeable(sys, self.index, items) {
            Some(e) => {
                return Err(e);
            },
            None => {},
        }
        let ghost oc = s0.entries@[sc].children@;
        let ghost mp = items@.map_values(|k: MenuItemKind| k.entry());
        proof {
            assert(oc =~= oc.subrange(0, position as int) + mp.subrange(0, 0) + oc.subrange(position as int, oc.len() as int));
            assert forall|e: int| 0 <= e < sys.entries@.len() implies same_content(#[trigger] sys.entries@[e], s0.entries@[e]) by {}
        }
        let mut i: usize = 0;
        while i < items.len()
            invariant
                i <= items@.len(),
                sys.wf(),
                self.valid(sys),
                sc == self.index as int,
                position <= oc.len(),
                position + items@.len() <= usize::MAX,
                oc == s0.entries@[sc].children@,
                mp == items@.map_values(|k: MenuItemKind| k.entry()),
                placeable(&s0, sc, items@),
                sys.contents_kept(s0),
                forall|k: int| 0 <= k < sys.n_entries() ==> (#[trigger] sys.entries@[k]).kind == s0.entries@[k].kind,
                s0.entries@[sc].projections@.len() == 0 ==> sys.entries@[sc].projections@.len() == 0,
                sys.entries@[sc].children@ == oc.subrange(0, position as int) + mp.subrange(0, i as int) + oc.subrange(position as int, oc.len() as int),
                forall|k: int| i <= k < items@.len() ==> {
                    &&& (#[trigger] items@[k]).valid(sys)
                    &&& sys.entries@[items@[k].entry() as int].owner == Owner::Detached
                    &&& !sys.is_ancestor(items@[k].entry() as int, sc)
                },
            decreases items@.len() - i,
        {
            let ghost s1 = *sys;
            let item = items[i];
            let r = self.insert(sys, item, position + i);
            proof {
                assert(r is Ok);
                let x = item.entry() as int;
                assert forall|e: int| 0 <= e < s1.n_entries() && e != x implies (#[trigger] sys.entries@[e]).owner == s1.entries@[e].owner by {
                    if e != sc {
                        assert(same_but_projections(sys.entries@[e], s1.entries@[e]));
                    }
                }
                assert forall|k: int| i + 1 <= k < items@.len() implies {
                    &&& (#[trigger] items@[k]).valid(sys)
                    &&& sys.entries@[items@[k].entry() as int].owner == Owner::Detached
                    &&& !sys.is_ancestor(items@[k].entry() as int, sc)
                } by {
                    let y = items@[k].entry() as int;
                    assert(items@[k].entry() != items@[i as int].entry());
                    assert(s1.entries@[y].owner == Owner::Detached);
                    assert(!s1.is_ancestor(y, sc));
                    assert(s1.ancestor_within(y, y, 0));
                    assert(y != sc);
                    assert forall|fuel: nat| !sys.ancestor_within(y, sc, fuel) by {
                        assert(!s1.ancestor_within(x, sc, fuel));
                        MenuSystem::lemma_ancestor_frame(*sys, s1, x, y, sc, fuel);
                    }
                }
                assert(mp.subrange(0, i + 1) =~= mp.subrange(0, i as int).push(mp[i as int]));
                assert(sys.entries@[sc].children@ =~= oc.subrange(0, position as int) + mp.subrange(0, i + 1) + oc.subrange(position as int, oc.len() as int));
                assert forall|e: int| 0 <= e < sys.entries@.len() implies same_content(#[trigger] sys.entries@[e], s0.entries@[e]) by {
                    assert(same_content(sys.entries@[e], s1.entries@[e]));
                }
            }
            i = i + 1;
        }
        proof {
            assert(mp.subrange(0, items@.len() as int) =~= mp);
        }
        Ok(())
    }

    /// Inserts `items` in order at the start, all or none.
    pub fn prepend_items(&self, sys: &mut MenuSystem, items: &Vec<MenuItemKind>) -> (r: Result<(), MenuError>)
        requires
            old(sys).wf(),
            self.valid(old(sys)),
            forall|i: int| 0 <= i < items@.len() ==> (#[trigger] items@[i]).valid(old(sys)),
        ensures
            final(sys).wf(),
            final(sys).contents_kept(*old(sys)),
            r is Err ==> *final(sys) == *old(sys),
            r is Ok <==> placeable(old(sys), self.index as int, items@),
            r is Ok ==> final(sys).entries@[self.index as int].children@ == items@.map_values(|k: MenuItemKind| k.entry())
                + old(sys).entries@[self.index as int].children@,
    {
        let count = items.len();
        proof {
            assert(0 + items@.len() == count);
        }
        let r = self.insert_items(sys, items, 0);
        proof {
            let c = old(sys).entries@[self.index as int].children@;
            assert(c.subrange(0, 0) + items@.map_values(|k: MenuItemKind| k.entry()) + c.subrange(0, c.len() as int)
                =~= items@.map_values(|k: MenuItemKind| k.entry()) + c);
            if items@.len() == 0 {
                assert(items@.map_values(|k: MenuItemKind| k.entry()) + c =~= c);
            }
        }
        r
    }

    /// A submenu with `items` appended, all or none. It fails when one of
    /// them already stands in a menu or appears twice.
    pub fn with_items(sys: &mut MenuSystem, text: &str, enabled: bool, items: &Vec<MenuItemKind>) -> (r: Result<Submenu, MenuError>)
        requires
            old(sys).wf(),
            old(sys).ids.next < u32::MAX,
            forall|i: int| 0 <= i < items@.len() ==> (#[trigger] items@[i]).valid(old(sys)),
        ensures
            final(sys).wf(),
            (r is Ok) <==> ((forall|k: int| 0 <= k < items@.len() ==> old(sys).entries@[(#[trigger] items@[k]).entry() as int].owner == Owner::Detached)
                && (forall|a: int, b: int| 0 <= a < items@.len() && 0 <= b < items@.len() && a != b ==> #[trigger] items@[a].entry() != #[trigger] items@[b].entry())),
            r is Ok ==> r->Ok_0.index == old(sys).entries@.len()
                && final(sys).entries@[r->Ok_0.index as int].id == old(sys).ids.next
                && final(sys).entries@[r->Ok_0.index as int].projections@.len() == 0,
            r is Ok ==> r->Ok_0.valid(final(sys)) && final(sys).entries@[r->Ok_0.index as int].text@ == text@
                && final(sys).entries@[r->Ok_0.index as int].enabled == enabled
                && final(sys).entries@[r->Ok_0.index as int].children@ == items@.map_values(|k: MenuItemKind| k.entry()),
    {
        let menu = Submenu::new(sys, text, enabled);
        let ghost s1 = *sys;
        let count = items.len();
        proof {
            assert(count == items@.len());
            assert(sys.entries@[menu.index as int].children@ =~= Seq::<usize>::empty());
            assert forall|i: int| 0 <= i < items@.len() implies (#[trigger] items@[i]).valid(sys) by {
                assert(items@[i].valid(old(sys)));
            }
            assert forall|k: int| 0 <= k < items@.len() implies !s1.is_ancestor((#[trigger] items@[k]).entry() as int, menu.index as int) by {
                assert forall|fuel: nat| !s1.ancestor_within(items@[k].entry() as int, menu.index as int, fuel) by {
                    assert(items@[k].valid(old(sys)));
                }
            }
            assert forall|k: int| 0 <= k < items@.len() implies s1.entries@[(#[trigger] items@[k]).entry() as int].owner == old(sys).entries@[items@[k].entry() as int].owner by {
                assert(items@[k].valid(old(sys)));
            }
        }
        match menu.append_items(sys, items) {
            Ok(()) => {
                proof {
                    let start = Seq::<usize>::empty();
                    assert(start + items@.map_values(|k: MenuItemKind| k.entry()) =~= items@.map_values(|k: MenuItemKind| k.entry()));
                    assert(same_content(sys.entries@[menu.index as int], s1.entries@[menu.index as int]));
                }
                Ok(menu)
            },
            Err(e) => Err(e),
        }
    }

    /// The submenu's entries, in order.
    pub fn items(&self, sys: &MenuSystem) -> (r: Vec<MenuItemKind>)
        requires
            sys.wf(),
            self.valid(sys),
        ensures
            r@.len() == sys.entries@[self.index as int].children@.len(),
            forall|i: int| 0 <= i < r@.len() ==> (#[trigger] r@[i]).entry() == sys.entries@[self.index as int].children@[i],
            forall|i: int| 0 <= i < r@.len() ==> kind_matches(#[trigger] r@[i], sys.entries@[sys.entries@[self.index as int].children@[i] as int].kind),
    {
        proof {
            reveal(MenuSystem::children_ok);
        }
        kinds_of(sys, &sys.entries[self.index].children)
    }

    /// Whether the entry is enabled, read from the first native widget when
    /// there is one.
    pub fn is_enabled(&self, sys: &MenuSystem) -> (r: bool)
        requires
            sys.wf(),
            (self.index as int) < sys.n_entries(),
        ensures
            r == sys.entries@[self.index as int].enabled,
    {
        sys.is_enabled(self.index)
    }

    /// Enables or disables the entry and every native widget of it.
    pub fn set_enabled(&self, sys: &mut MenuSystem, enabled: bool)
        requires
            old(sys).wf(),
            (self.index as int) < old(sys).n_entries(),
        ensures
            final(sys).wf(),
            final(sys).entries@[self.index as int].enabled == enabled,
            forall|h: int|
                #[trigger] final(sys).alive(h) && final(sys).widgets@[h].role is Item
                    && final(sys).widgets@[h].role->entry == self.index ==> final(sys).widgets@[h].sensitive == enabled,
            final(sys).entries@.len() == old(sys).entries@.len(),
            forall|i: int| 0 <= i < final(sys).n_entries() && i != self.index ==> #[trigger] final(sys).entries@[i] == old(sys).entries@[i],
            same_structure(final(sys).entries@[self.index as int], old(sys).entries@[self.index as int]),
            final(sys).entries@[self.index as int].projections == old(sys).entries@[self.index as int].projections,
            final(sys).entries@[self.index as int].accelerator == old(sys).entries@[self.index as int].accelerator,
            final(sys).entries@[self.index as int].syncing == old(sys).entries@[self.index as int].syncing,
            final(sys).menus == old(sys).menus,
            final(sys).entries@[self.index as int].text == old(sys).entries@[self.index as int].text,
            final(sys).entries@[self.index as int].checked == old(sys).entries@[self.index as int].checked,
            fanned_out(final(sys).ops@, old(sys).ops@, Attribute::Enabled, final(sys).entries@[self.index as int]),
    {
        sys.set_enabled(self.index, enabled);
    }
}

impl MenuItem {
    pub open spec fn valid(self, sys: &MenuSystem) -> bool {
        &&& (self.index as int) < sys.n_entries()
        &&& sys.entries@[self.index as int].kind == ItemKind::Normal
    }

    /// The entry's identifier.
    pub fn id(&self, sys: &MenuSystem) -> (r: u32)
        requires
            (self.index as int) < sys.n_entries(),
        ensures
            r == sys.entries@[self.index as int].id,
    {
        sys.entries[self.index].id
    }

    /// This handle as an entry of a menu.
    pub fn kind(&self) -> (r: MenuItemKind)
        ensures
            r.entry() == self.index,
    {
        MenuItemKind::Normal(*self)
    }

    /// The text, read back from the first native widget when there is one.
    /// It equals the text that was set whenever that text is well-formed.
    pub fn text(&self, sys: &MenuSystem) -> (r: String)
        requires
            sys.wf(),
            (self.index as int) < sys.n_entries(),
        ensures
            r@ == (if sys.entries@[self.index as int].projections@.len() > 0 {
                from_native_spec(to_native_spec(sys.entries@[self.index as int].text@))
            } else {
                sys.entries@[self.index as int].text@
            }),
            portable_ok(sys.entries@[self.index as int].text@) ==> r@ == sys.entries@[self.index as int].text@,
    {
        let v = sys.text(self.index);
        proof {
            if portable_ok(sys.entries@[self.index as int].text@) {
                lemma_portable_round_trip(sys.entries@[self.index as int].text@);
            }
        }
        string_of(&v)
    }

    /// Sets the text, in the entry and in every native widget of it.
    pub fn set_text(&self, sys: &mut MenuSystem, text: &str)
        requires
            old(sys).wf(),
            (self.index as int) < old(sys).n_entries(),
        ensures
            final(sys).wf(),
            final(sys).entries@[self.index as int].text@ == text@,
            forall|h: int|
                #[trigger] final(sys).alive(h) && final(sys).widgets@[h].role is Item
                    && final(sys).widgets@[h].role->entry == self.index ==> final(sys).widgets@[h].label@ == to_native_spec(text@),
            final(sys).entries@.len() == old(sys).entries@.len(),
            forall|i: int| 0 <= i < final(sys).n_entries() && i != self.index ==> #[trigger] final(sys).entries@[i] == old(sys).entries@[i],
            same_structure(final(sys).entries@[self.index as int], old(sys).entries@[self.index as int]),
            final(sys).entries@[self.index as int].projections == old(sys).entries@[self.index as int].projections,
            final(sys).entries@[self.index as int].accelerator == old(sys).entries@[self.index as int].accelerator,
            final(sys).entries@[self.index as int].syncing == old(sys).entries@[self.index as int].syncing,
            final(sys).menus == old(sys).menus,
            final(sys).entries@[self.index as int].enabled == old(sys).entries@[self.index as int].enabled,
            final(sys).entries@[self.index as int].checked == old(sys).entries@[self.index as int].checked,
            fanned_out(final(sys).ops@, old(sys).ops@, Attribute::Text, final(sys).entries@[self.index as int]),
    {
        let v = chars_of(text);
        sys.set_text(self.index, v);
    }

    /// A plain entry.
    pub fn new(sys: &mut MenuSystem, text: &str, enabled: bool, accelerator: Option<Accelerator>) -> (r: MenuItem)
        requires
            old(sys).wf(),
            old(sys).ids.next < u32::MAX,
        ensures
            final(sys).wf(),
            r.valid(final(sys)),
            final(sys).entries@[r.index as int].text@ == text@,
            final(sys).entries@[r.index as int].enabled == enabled,
            final(sys).entries@[r.index as int].accelerator == accelerator,
            final(sys).entries@[r.index as int].owner == Owner::Detached,
            final(sys).entries@.len() == old(sys).entries@.len() + 1,
            r.index == old(sys).entries@.len(),
            forall|e: int| 0 <= e < old(sys).entries@.len() ==> #[trigger] final(sys).entries@[e] == old(sys).entries@[e],
            final(sys).entries@[r.index as int].id == old(sys).ids.next,
            final(sys).ids.next == old(sys).ids.next + 1,
            final(sys).entries@[r.index as int].projections@.len() == 0,
            !final(sys).entries@[r.index as int].syncing,
            final(sys).menus == old(sys).menus,
            final(sys).widgets == old(sys).widgets,
    {
        let t = chars_of(text);
        MenuItem { index: sys.add_entry(t, enabled, false, accelerator, ItemKind::Normal) }
    }

    /// Whether the entry is enabled, read from the first native widget when
    /// there is one.
    pub fn is_enabled(&self, sys: &MenuSystem) -> (r: bool)
        requires
            sys.wf(),
            (self.index as int) < sys.n_entries(),
        ensures
            r == sys.entries@[self.index as int].enabled,
    {
        sys.is_enabled(self.index)
    }

    /// Enables or disables the entry and every native widget of it.
    pub fn set_enabled(&self, sys: &mut MenuSystem, enabled: bool)
        requires
            old(sys).wf(),
            (self.index as int) < old(sys).n_entries(),
        ensures
            final(sys).wf(),
            final(sys).entries@[self.index as int].enabled == enabled,
            forall|h: int|
                #[trigger] final(sys).alive(h) && final(sys).widgets@[h].role is Item
                    && final(sys).widgets@[h].role->entry == self.index ==> final(sys).widgets@[h].sensitive == enabled,
            final(sys).entries@.len() == old(sys).entries@.len(),
            forall|i: int| 0 <= i < final(sys).n_entries() && i != self.index ==> #[trigger] final(sys).entries@[i] == old(sys).entries@[i],
            same_structure(final(sys).entries@[self.index as int], old(sys).entries@[self.index as int]),
            final(sys).entries@[self.index as int].projections == old(sys).entries@[self.index as int].projections,
            final(sys).entries@[self.index as int].accelerator == old(sys).entries@[self.index as int].accelerator,
            final(sys).entries@[self.index as int].syncing == old(sys).entries@[self.index as int].syncing,
            final(sys).menus == old(sys).menus,
            final(sys).entries@[self.index as int].text == old(sys).entries@[self.index as int].text,
            final(sys).entries@[self.index as int].checked == old(sys).entries@[self.index as int].checked,
            fanned_out(final(sys).ops@, old(sys).ops@, Attribute::Enabled, final(sys).entries@[self.index as int]),
    {
        sys.set_enabled(self.index, enabled);
    }
}

impl PredefinedMenuItem {
    pub open spec fn valid(self, sys: &MenuSystem) -> bool {
        &&& (self.index as int) < sys.n_entries()
        &&& sys.entries@[self.index as int].kind is Predefined
    }

    /// The entry's identifier.
    pub fn id(&self, sys: &MenuSystem) -> (r: u32)
        requires
            (self.index as int) < sys.n_entries(),
        ensures
            r == sys.entries@[self.index as int].id,
    {
        sys.entries[self.index].id
    }

    /// This handle as an entry of a menu.
    pub fn kind(&self) -> (r: MenuItemKind)
        ensures
            r.entry() == self.index,
    {
        MenuItemKind::Predefined(*self)
    }

    /// The text, read back from the first native widget when there is one.
    /// It equals the text that was set whenever that text is well-formed.
    pub fn text(&self, sys: &MenuSystem) -> (r: String)
        requires
            sys.wf(),
            (self.index as int) < sys.n_entries(),
        ensures
            r@ == (if sys.entries@[self.index as int].projections@.len() > 0 {
                from_native_spec(to_native_spec(sys.entries@[self.index as int].text@))
            } else {
                sys.entries@[self.index as int].text@
            }),
            portable_ok(sys.entries@[self.index as int].text@) ==> r@ == sys.entries@[self.index as int].text@,
    {
        let v = sys.text(self.index);
        proof {
            if portable_ok(sys.entries@[self.index as int].text@) {
                lemma_portable_round_trip(sys.entries@[self.index as int].text@);
            }
        }
        string_of(&v)
    }

    /// Sets the text, in the entry and in every native widget of it.
    pub fn set_text(&self, sys: &mut MenuSystem, text: &str)
        requires
            old(sys).wf(),
            (self.index as int) < old(sys).n_entries(),
        ensures
            final(sys).wf(),
            final(sys).entries@[self.index as int].text@ == text@,
            forall|h: int|
                #[trigger] final(sys).alive(h) && final(sys).widgets@[h].role is Item
                    && final(sys).widgets@[h].role->entry == self.index ==> final(sys).widgets@[h].label@ == to_native_spec(text@),
            final(sys).entries@.len() == old(sys).entries@.len(),
            forall|i: int| 0 <= i < final(sys).n_entries() && i != self.index ==> #[trigger] final(sys).entries@[i] == old(sys).entries@[i],
            same_structure(final(sys).entries@[self.index as int], old(sys).entries@[self.index as int]),
            final(sys).entries@[self.index as int].projections == old(sys).entries@[self.index as int].projections,
            final(sys).entries@[self.index as int].accelerator == old(sys).entries@[self.index as int].accelerator,
            final(sys).entries@[self.index as int].syncing == old(sys).entries@[self.index as int].syncing,
            final(sys).menus == old(sys).menus,
            final(sys).entries@[self.index as int].enabled == old(sys).entries@[self.index as int].enabled,
            final(sys).entries@[self.index as int].checked == old(sys).entries@[self.index as int].checked,
            fanned_out(final(sys).ops@, old(sys).ops@, Attribute::Text, final(sys).entries@[self.index as int]),
    {
        let v = chars_of(text);
        sys.set_text(self.index, v);
    }

    /// A predefined entry of `kind`, with `text` or the kind's own text.
    pub fn new(sys: &mut MenuSystem, kind: PredefinedKind, text: Option<&str>) -> (r: PredefinedMenuItem)
        requires
            old(sys).wf(),
            old(sys).ids.next < u32::MAX,
        ensures
            final(sys).wf(),
            r.valid(final(sys)),
            final(sys).entries@[r.index as int].kind == ItemKind::Predefined(kind),
            final(sys).entries@[r.index as int].enabled,
            final(sys).entries@[r.index as int].accelerator == crate::predefined::default_accelerator_spec(kind),
            final(sys).entries@[r.index as int].owner == Owner::Detached,
            match text {
                Some(t) => final(sys).entries@[r.index as int].text@ == t@,
                None => final(sys).entries@[r.index as int].text@ == crate::predefined::default_text_spec(kind),
            },
            final(sys).entries@.len() == old(sys).entries@.len() + 1,
            r.index == old(sys).entries@.len(),
            forall|e: int| 0 <= e < old(sys).entries@.len() ==> #[trigger] final(sys).entries@[e] == old(sys).entries@[e],
            final(sys).entries@[r.index as int].id == old(sys).ids.next,
            final(sys).ids.next == old(sys).ids.next + 1,
            final(sys).entries@[r.index as int].projections@.len() == 0,
            !final(sys).entries@[r.index as int].syncing,
            final(sys).menus == old(sys).menus,
            final(sys).widgets == old(sys).widgets,
    {
        let t = match text {
            Some(t) => chars_of(t),
            None => chars_of(kind.default_text()),
        };
        let accelerator = kind.default_accelerator();
        PredefinedMenuItem { index: sys.add_entry(t, true, false, accelerator, ItemKind::Predefined(kind)) }
    }
}

impl CheckMenuItem {
    pub open spec fn valid(self, sys: &MenuSystem) -> bool {
        &&& (self.index as int) < sys.n_entries()
        &&& sys.entries@[self.index as int].kind == ItemKind::Check
    }

    /// The entry's identifier.
    pub fn id(&self, sys: &MenuSystem) -> (r: u32)
        requires
            (self.index as int) < sys.n_entries(),
        ensures
            r == sys.entries@[self.index as int].id,
    {
        sys.entries[self.index].id
    }

    /// This handle as an entry of a menu.
    pub fn kind(&self) -> (r: MenuItemKind)
        ensures
            r.entry() == self.index,
    {
        MenuItemKind::Check(*self)
    }

    /// The text, read back from the first native widget when there is one.
    /// It equals the text that was set whenever that text is well-formed.
    pub fn text(&self, sys: &MenuSystem) -> (r: String)
        requires
            sys.wf(),
            (self.index as int) < sys.n_entries(),
        ensures
            r@ == (if sys.entries@[self.index as int].projections@.len() > 0 {
                from_native_spec(to_native_spec(sys.entries@[self.index as int].text@))
            } else {
                sys.entries@[self.index as int].text@
            }),
            portable_ok(sys.entries@[self.index as int].text@) ==> r@ == sys.entries@[self.index as int].text@,
    {
        let v = sys.text(self.index);
        proof {
            if portable_ok(sys.entries@[self.index as int].text@) {
                lemma_portable_round_trip(sys.entries@[self.index as int].text@);
            }
        }
        string_of(&v)
    }

    /// Sets the text, in the entry and in every native widget of it.
    pub fn set_text(&self, sys: &mut MenuSystem, text: &str)
        requires
            old(sys).wf(),
            (self.index as int) < old(sys).n_entries(),
        ensures
            final(sys).wf(),
            final(sys).entries@[self.index as int].text@ == text@,
            forall|h: int|
                #[trigger] final(sys).alive(h) && final(sys).widgets@[h].role is Item
                    && final(sys).widgets@[h].role->entry == self.index ==> final(sys).widgets@[h].label@ == to_native_spec(text@),
            final(sys).entries@.len() == old(sys).entries@.len(),
            forall|i: int| 0 <= i < final(sys).n_entries() && i != self.index ==> #[trigger] final(sys).entries@[i] == old(sys).entries@[i],
            same_structure(final(sys).entries@[self.index as int], old(sys).entries@[self.index as int]),
            final(sys).entries@[self.index as int].projections == old(sys).entries@[self.index as int].projections,
            final(sys).entries@[self.index as int].accelerator == old(sys).entries@[self.index as int].accelerator,
            final(sys).entries@[self.index as int].syncing == old(sys).entries@[self.index as int].syncing,
            final(sys).menus == old(sys).menus,
            final(sys).entries@[self.index as int].enabled == old(sys).entries@[self.index as int].enabled,
            final(sys).entries@[self.index as int].checked == old(sys).entries@[self.index as int].checked,
            fanned_out(final(sys).ops@, old(sys).ops@, Attribute::Text, final(sys).entries@[self.index as int]),
    {
        let v = chars_of(text);
        sys.set_text(self.index, v);
    }

    /// A check entry.
    pub fn new(sys: &mut MenuSystem, text: &str, enabled: bool, checked: bool, accelerator: Option<Accelerator>) -> (r: CheckMenuItem)
        requires
            old(sys).wf(),
            old(sys).ids.next < u32::MAX,
        ensures
            final(sys).wf(),
            r.valid(final(sys)),
            final(sys).entries@[r.index as int].text@ == text@,
            final(sys).entries@[r.index as int].enabled == enabled,
            final(sys).entries@[r.index as int].checked == checked,
            final(sys).entries@[r.index as int].accelerator == accelerator,
            final(sys).entries@[r.index as int].owner == Owner::Detached,
            final(sys).entries@.len() == old(sys).entries@.len() + 1,
            r.index == old(sys).entries@.len(),
            forall|e: int| 0 <= e < old(sys).entries@.len() ==> #[trigger] final(sys).entries@[e] == old(sys).entries@[e],
            final(sys).entries@[r.index as int].id == old(sys).ids.next,
            final(sys).ids.next == old(sys).ids.next + 1,
            final(sys).entries@[r.index as int].projections@.len() == 0,
            !final(sys).entries@[r.index as int].syncing,
            final(sys).menus == old(sys).menus,
            final(sys).widgets == old(sys).widgets,
    {
        let t = chars_of(text);
        CheckMenuItem { index: sys.add_entry(t, enabled, checked, accelerator, ItemKind::Check) }
    }

    /// Whether the entry is enabled, read from the first native widget when
    /// there is one.
    pub fn is_enabled(&self, sys: &MenuSystem) -> (r: bool)
        requires
            sys.wf(),
            (self.index as int) < sys.n_entries(),
        ensures
            r == sys.entries@[self.index as int].enabled,
    {
        sys.is_enabled(self.index)
    }

    /// Enables or disables the entry and every native widget of it.
    pub fn set_enabled(&self, sys: &mut MenuSystem, enabled: bool)
        requires
            old(sys).wf(),
            (self.index as int) < old(sys).n_entries(),
        ensures
            final(sys).wf(),
            final(sys).entries@[self.index as int].enabled == enabled,
            forall|h: int|
                #[trigger] final(sys).alive(h) && final(sys).widgets@[h].role is Item
                    && final(sys).widgets@[h].role->entry == self.index ==> final(sys).widgets@[h].sensitive == enabled,
            final(sys).entries@.len() == old(sys).entries@.len(),
            forall|i: int| 0 <= i < final(sys).n_entries() && i != self.index ==> #[trigger] final(sys).entries@[i] == old(sys).entries@[i],
            same_structure(final(sys).entries@[self.index as int], old(sys).entries@[self.index as int]),
            final(sys).entries@[self.index as int].projections == old(sys).entries@[self.index as int].projections,
            final(sys).entries@[self.index as int].accelerator == old(sys).entries@[self.index as int].accelerator,
            final(sys).entries@[self.index as int].syncing == old(sys).entries@[self.index as int].syncing,
            final(sys).menus == old(sys).menus,
            final(sys).entries@[self.index as int].text == old(sys).entries@[self.index as int].text,
            final(sys).entries@[self.index as int].checked == old(sys).entries@[self.index as int].checked,
            fanned_out(final(sys).ops@, old(sys).ops@, Attribute::Enabled, final(sys).entries@[self.index as int]),
    {
        sys.set_enabled(self.index, enabled);
    }

    /// Whether the entry is checked, read from the first native widget when
    /// there is one.
    pub fn is_checked(&self, sys: &MenuSystem) -> (r: bool)
        requires
            sys.wf(),
            self.valid(sys),
        ensures
            r == sys.entries@[self.index as int].checked,
    {
        sys.is_checked(self.index)
    }

    /// Sets the checked state of the entry and of every native widget of it.
    /// This is no user toggle and is not reported as an event.
    pub fn set_checked(&self, sys: &mut MenuSystem, checked: bool)
        requires
            old(sys).wf(),
            self.valid(old(sys)),
        ensures
            final(sys).wf(),
            final(sys).entries@[self.index as int].checked == checked,
            forall|h: int|
                #[trigger] final(sys).alive(h) && final(sys).widgets@[h].role is Item
                    && final(sys).widgets@[h].role->entry == self.index ==> final(sys).widgets@[h].active == checked,
            final(sys).entries@.len() == old(sys).entries@.len(),
            forall|i: int| 0 <= i < final(sys).n_entries() && i != self.index ==> #[trigger] final(sys).entries@[i] == old(sys).entries@[i],
            same_structure(final(sys).entries@[self.index as int], old(sys).entries@[self.index as int]),
            final(sys).entries@[self.index as int].projections == old(sys).entries@[self.index as int].projections,
            final(sys).entries@[self.index as int].accelerator == old(sys).entries@[self.index as int].accelerator,
            final(sys).entries@[self.index as int].syncing == old(sys).entries@[self.index as int].syncing,
            final(sys).menus == old(sys).menus,
            final(sys).entries@[self.index as int].text == old(sys).entries@[self.index as int].text,
            final(sys).entries@[self.index as int].enabled == old(sys).entries@[self.index as int].enabled,
            fanned_out(final(sys).ops@, old(sys).ops@, Attribute::Checked, final(sys).entries@[self.index as int]),
    {
        sys.set_checked(self.index, checked);
    }
}

} // verus!
