//! The synchronisation engine: one logical menu tree, and every native
//! projection of it.
//!
//! Logical entries live in an arena and are addressed by index. The native
//! side is modelled by a table of widgets, addressed by handle: the engine
//! decides every native change, records it in that table, and queues it as
//! a [`NativeOp`] for the host toolkit to carry out. The well-formedness
//! predicate [`MenuSystem::wf`] states that the table is an exact mirror of
//! the logical tree: every live native container holds one widget per
//! logical child, in the logical order, and every widget shows the text,
//! enabled state and checked state of its entry.
use vstd::prelude::*;
use crate::accelerator::Accelerator;
use crate::error::MenuError;
use crate::ids::IdCounter;
use crate::guard::{notify, try_begin};
use crate::mnemonic::{from_native, from_native_spec, to_native, to_native_spec};
use crate::text::copy_chars;
use crate::predefined::PredefinedKind;

verus! {

/// The kind of a logical entry.
#[derive(Debug, Clone, Copy, PartialEq, Eq, Structural)]
pub enum ItemKind {
    Submenu,
    Normal,
    Predefined(PredefinedKind),
    Check,
}

/// Where a logical entry stands.
#[derive(Debug, Clone, Copy, PartialEq, Eq, Structural)]
pub enum Owner {
    /// In no menu.
    Detached,
    /// A child of the submenu with this index.
    InSubmenu(usize),
    /// A top-level entry of the menu with this index.
    InMenu(usize),
}

/// One native widget recorded for an entry: the native container it stands
/// in, and its handle.
#[derive(Debug, Clone, Copy, PartialEq, Eq, Structural)]
pub struct Projection {
    pub parent: usize,
    pub widget: usize,
}

/// A logical menu entry.
pub struct Entry {
    pub id: u32,
    pub text: Vec<char>,
    pub enabled: bool,
    pub checked: bool,
    pub accelerator: Option<Accelerator>,
    pub kind: ItemKind,
    /// The children, by index, for a submenu; empty otherwise.
    pub children: Vec<usize>,
    pub owner: Owner,
    /// The projection store: every native widget that shows this entry, in
    /// the order they were registered.
    pub projections: Vec<Projection>,
    /// The check-item sync guard.
    pub syncing: bool,
}

/// What a native widget stands for.
#[derive(Debug, Clone, Copy, PartialEq, Eq, Structural)]
pub enum Role {
    /// The native root (a menu bar or a context menu) of the menu with this
    /// index.
    Bar { menu: usize },
    /// A widget for the entry `entry` inside the native container `parent`.
    /// For a submenu entry the widget is also the container of its children.
    Item { entry: usize, parent: usize },
}

/// The engine's record of one native widget.
pub struct Widget {
    pub role: Role,
    pub label: Vec<char>,
    pub sensitive: bool,
    pub active: bool,
    /// The native children, in order (containers only).
    pub children: Vec<usize>,
    pub alive: bool,
}

/// The native menu bar of a menu in one window.
#[derive(Debug, Clone, Copy, PartialEq, Eq, Structural)]
pub struct WindowBar {
    pub window: u64,
    pub bar: usize,
}

/// A menu root: a menu bar or a context menu.
pub struct MenuData {
    pub entries: Vec<usize>,
    pub bars: Vec<WindowBar>,
    pub context: Option<usize>,
}

/// One change for the host toolkit to make.
pub enum NativeOp {
    /// Create a native menu bar for `window`.
    CreateBar { handle: usize, window: u64 },
    /// Create a native context menu.
    CreateContextMenu { handle: usize },
    /// Create a widget and place it at `position` among the children of
    /// `parent`. A submenu widget also gets a native container of its own.
    CreateItem {
        handle: usize,
        parent: usize,
        position: usize,
        entry_id: u32,
        kind: ItemKind,
        label: Vec<char>,
        sensitive: bool,
        active: bool,
        accelerator: Option<Accelerator>,
    },
    /// Take a widget out of its container and destroy it.
    Destroy { handle: usize },
    /// Destroy a menu bar and detach its accelerators from `window`.
    DestroyBar { handle: usize, window: u64 },
    SetLabel { handle: usize, label: Vec<char> },
    SetSensitive { handle: usize, value: bool },
    SetActive { handle: usize, value: bool },
    Show { handle: usize },
    Hide { handle: usize },
}

/// The state of an entry that a change touched.
#[derive(Debug, Clone, Copy, PartialEq, Eq, Structural)]
pub enum Attribute {
    Text,
    Enabled,
    Checked,
}

/// The whole state: logical entries, menus, and the native mirror.
pub struct MenuSystem {
    pub entries: Vec<Entry>,
    pub menus: Vec<MenuData>,
    pub widgets: Vec<Widget>,
    /// Native changes not yet handed to the host toolkit.
    pub ops: Vec<NativeOp>,
    pub ids: IdCounter,
    /// A rank for each entry that strictly decreases from a submenu to its
    /// children, which keeps the tree free of cycles.
    pub rank: Ghost<Seq<nat>>,
    /// A strict upper bound on every rank.
    pub rank_bound: Ghost<nat>,
}

/// The native state that a widget for entry `e` shows.
pub open spec fn shows(w: Widget, e: Entry) -> bool {
    &&& w.label@ == to_native_spec(e.text@)
    &&& w.sensitive == e.enabled
    &&& w.active == (e.kind == ItemKind::Check && e.checked)
}

/// `op` is the native change that pushes attribute `attr` of entry `e` to
/// the widget `handle`.
pub open spec fn sets_attribute(op: NativeOp, attr: Attribute, handle: usize, e: Entry) -> bool {
    match attr {
        Attribute::Text => match op {
            NativeOp::SetLabel { handle: h, label } => h == handle && label@ == to_native_spec(e.text@),
            _ => false,
        },
        Attribute::Enabled => op == (NativeOp::SetSensitive { handle, value: e.enabled }),
        Attribute::Checked => op == (NativeOp::SetActive {
            handle,
            value: e.kind == ItemKind::Check && e.checked,
        }),
    }
}

/// `new` is `old` followed by one change of `attr` for each recorded
/// projection of `e`, in order.
pub open spec fn fanned_out(new: Seq<NativeOp>, old: Seq<NativeOp>, attr: Attribute, e: Entry) -> bool {
    &&& new.len() == old.len() + e.projections@.len()
    &&& forall|i: int| 0 <= i < old.len() ==> #[trigger] new[i] == old[i]
    &&& forall|k: int|
        0 <= k < e.projections@.len() ==> sets_attribute(
            #[trigger] new[old.len() + k],
            attr,
            e.projections@[k].widget,
            e,
        )
}

/// `op` creates widget `handle` for entry `e` at `position` among the
/// children of `parent`, showing `e`'s current state.
pub open spec fn creates_item(op: NativeOp, handle: usize, parent: usize, position: usize, e: Entry) -> bool {
    match op {
        NativeOp::CreateItem {
            handle: h,
            parent: p,
            position: q,
            entry_id,
            kind,
            label,
            sensitive,
            active,
            accelerator,
        } => {
            &&& h == handle
            &&& p == parent
            &&& q == position
            &&& entry_id == e.id
            &&& kind == e.kind
            &&& label@ == to_native_spec(e.text@)
            &&& sensitive == e.enabled
            &&& active == (e.kind == ItemKind::Check && e.checked)
            &&& accelerator == e.accelerator
        },
        _ => false,
    }
}

/// `op` creates the widget `handle`, whose role is `role`.
pub open spec fn creates_widget(op: NativeOp, handle: usize, role: Role) -> bool {
    match op {
        NativeOp::CreateItem { handle: h, parent, .. } => h == handle && role is Item && role->parent == parent,
        NativeOp::CreateBar { handle: h, .. } => h == handle && role is Bar,
        NativeOp::CreateContextMenu { handle: h } => h == handle && role is Bar,
        _ => false,
    }
}

/// The two entries agree on their own state: identifier, kind, text,
/// enabled and checked state, accelerator and guard.
pub open spec fn same_content(a: Entry, b: Entry) -> bool {
    &&& a.id == b.id
    &&& a.kind == b.kind
    &&& a.text == b.text
    &&& a.enabled == b.enabled
    &&& a.checked == b.checked
    &&& a.accelerator == b.accelerator
    &&& a.syncing == b.syncing
}

/// The two entries agree on their place in the tree.
pub open spec fn same_structure(a: Entry, b: Entry) -> bool {
    &&& a.id == b.id
    &&& a.kind == b.kind
    &&& a.children == b.children
    &&& a.owner == b.owner
}

/// The two entries agree on everything but their projection stores.
pub open spec fn same_but_projections(a: Entry, b: Entry) -> bool {
    &&& same_structure(a, b)
    &&& a.text == b.text
    &&& a.enabled == b.enabled
    &&& a.checked == b.checked
    &&& a.accelerator == b.accelerator
    &&& a.syncing == b.syncing
}

impl MenuSystem {
    pub open spec fn n_entries(&self) -> int {
        self.entries@.len() as int
    }

    pub open spec fn alive(&self, h: int) -> bool {
        0 <= h < self.widgets@.len() && self.widgets@[h].alive
    }

    /// The logical children that the native container `h` mirrors.
    pub open spec fn shown(&self, h: int) -> Seq<usize> {
        match self.widgets@[h].role {
            Role::Bar { menu } => self.menus@[menu as int].entries@,
            Role::Item { entry, .. } => self.entries@[entry as int].children@,
        }
    }

    /// The `j`-th native child of `h` is a live widget for the `j`-th
    /// logical child.
    pub open spec fn child_ok(&self, h: int, j: int) -> bool {
        let x = self.widgets@[h].children@[j] as int;
        &&& 0 <= x < self.widgets@.len()
        &&& self.widgets@[x].alive
        &&& self.widgets@[x].role == (Role::Item { entry: self.shown(h)[j], parent: h as usize })
    }

    /// The native container `h` mirrors its logical children: same number,
    /// same order.
    pub open spec fn container_ok(&self, h: int) -> bool {
        &&& self.widgets@[h].children@.len() == self.shown(h).len()
        &&& forall|j: int| 0 <= j < self.shown(h).len() ==> #[trigger] self.child_ok(h, j)
    }

    #[verifier::opaque]
    pub open spec fn containers_ok_except(&self, skip: Set<int>) -> bool {
        forall|h: int| #[trigger] self.alive(h) && !skip.contains(h) ==> self.container_ok(h)
    }

    pub open spec fn role_ok(&self, h: int) -> bool {
        match self.widgets@[h].role {
            Role::Bar { menu } => menu < self.menus@.len(),
            Role::Item { entry, parent } => entry < self.entries@.len() && parent < h,
        }
    }

    /// The `k`-th recorded projection of `e` is a live widget for `e` that
    /// shows `e`'s current state.
    pub open spec fn projection_ok(&self, e: int, k: int) -> bool {
        let pr = self.entries@[e].projections@[k];
        let x = pr.widget as int;
        &&& 0 <= x < self.widgets@.len()
        &&& self.widgets@[x].alive
        &&& self.widgets@[x].role == (Role::Item { entry: e as usize, parent: pr.parent })
        &&& shows(self.widgets@[x], self.entries@[e])
    }

    /// The widget `h` is known to the engine: an item widget is in its
    /// entry's projection store, a root is listed by its menu.
    pub open spec fn registered(&self, h: int) -> bool {
        match self.widgets@[h].role {
            Role::Item { entry, parent } => exists|k: int|
                0 <= k < self.entries@[entry as int].projections@.len()
                    && #[trigger] self.entries@[entry as int].projections@[k] == (Projection {
                    parent,
                    widget: h as usize,
                }),
            Role::Bar { menu } => self.menus@[menu as int].context == Some(h as usize) || exists|
                b: int,
            |
                0 <= b < self.menus@[menu as int].bars@.len()
                    && #[trigger] self.menus@[menu as int].bars@[b].bar == h as usize,
        }
    }

    /// Every root that menu `m` lists is a live root of `m`.
    pub open spec fn menu_ok(&self, m: int) -> bool {
        let md = self.menus@[m];
        &&& forall|b: int|
            0 <= b < md.bars@.len() ==> {
                let h = (#[trigger] md.bars@[b]).bar as int;
                self.alive(h) && self.widgets@[h].role == (Role::Bar { menu: m as usize })
            }
        &&& match md.context {
            Some(c) => self.alive(c as int) && self.widgets@[c as int].role == (Role::Bar {
                menu: m as usize,
            }),
            None => true,
        }
        &&& match md.context {
            Some(c) => forall|b: int| 0 <= b < md.bars@.len() ==> (#[trigger] md.bars@[b]).bar != c,
            None => true,
        }
    }

    /// Every rank is below the bound.
    #[verifier::opaque]
    pub open spec fn ranks_ok(&self) -> bool {
        &&& self.rank@.len() == self.n_entries()
        &&& self.rank_bound@ > 0
        &&& forall|e: int| 0 <= e < self.n_entries() ==> #[trigger] self.rank@[e] < self.rank_bound@
    }

    /// Every child of a submenu is an entry owned by that submenu, of lower
    /// rank.
    #[verifier::opaque]
    pub open spec fn children_ok(&self) -> bool {
        forall|e: int, j: int|
            0 <= e < self.n_entries() && 0 <= j < self.entries@[e].children@.len() ==> {
                let c = #[trigger] self.entries@[e].children@[j] as int;
                &&& 0 <= c < self.n_entries()
                &&& self.entries@[c].owner == Owner::InSubmenu(e as usize)
                &&& self.rank@[c] < self.rank@[e]
            }
    }

    /// Each entry lists no child twice, only submenus have children, and an
    /// entry's owner lists it.
    #[verifier::opaque]
    pub open spec fn owners_ok(&self) -> bool {
        forall|e: int|
            0 <= e < self.n_entries() ==> {
                &&& (#[trigger] self.entries@[e]).children@.no_duplicates()
                &&& self.entries@[e].kind != ItemKind::Submenu ==> self.entries@[e].children@.len()
                    == 0
                &&& match self.entries@[e].owner {
                    Owner::InSubmenu(p) => p < self.n_entries() && self.entries@[p as int].children@.contains(
                        e as usize,
                    ),
                    Owner::InMenu(m) => m < self.menus@.len() && self.menus@[m as int].entries@.contains(
                        e as usize,
                    ),
                    Owner::Detached => true,
                }
            }
    }

    /// Every top-level entry of a menu is owned by that menu, once.
    #[verifier::opaque]
    pub open spec fn menu_lists_ok(&self) -> bool {
        &&& forall|m: int, j: int|
            0 <= m < self.menus@.len() && 0 <= j < self.menus@[m].entries@.len() ==> {
                let c = #[trigger] self.menus@[m].entries@[j] as int;
                &&& 0 <= c < self.n_entries()
                &&& self.entries@[c].owner == Owner::InMenu(m as usize)
            }
        &&& forall|m: int|
            0 <= m < self.menus@.len() ==> (#[trigger] self.menus@[m]).entries@.no_duplicates()
    }

    /// Identifiers are unique and below the counter.
    #[verifier::opaque]
    pub open spec fn ids_ok(&self) -> bool {
        &&& forall|e: int| 0 <= e < self.n_entries() ==> #[trigger] self.entries@[e].id < self.ids.next
        &&& forall|a: int, b: int|
            0 <= a < self.n_entries() && 0 <= b < self.n_entries() && a != b
                ==> #[trigger] self.entries@[a].id != #[trigger] self.entries@[b].id
    }

    /// The logical tree: children and owners agree, ranks decrease towards
    /// the leaves, no entry is listed twice, identifiers are unique.
    pub open spec fn tree_ok(&self) -> bool {
        &&& self.ranks_ok()
        &&& self.children_ok()
        &&& self.owners_ok()
        &&& self.menu_lists_ok()
        &&& self.ids_ok()
    }

    /// Every live widget has a valid role and is registered.
    #[verifier::opaque]
    pub open spec fn widgets_registered(&self) -> bool {
        forall|h: int| #[trigger] self.alive(h) ==> self.role_ok(h) && self.registered(h)
    }

    /// Every recorded projection is valid.
    #[verifier::opaque]
    pub open spec fn projections_ok(&self) -> bool {
        forall|e: int, k: int|
            0 <= e < self.n_entries() && 0 <= k < self.entries@[e].projections@.len()
                ==> #[trigger] self.projection_ok(e, k)
    }

    /// Every menu's roots are valid.
    #[verifier::opaque]
    pub open spec fn menus_ok(&self) -> bool {
        forall|m: int| 0 <= m < self.menus@.len() ==> #[trigger] self.menu_ok(m)
    }

    /// The native mirror apart from the order of containers.
    pub open spec fn natives_ok(&self) -> bool {
        &&& self.widgets_registered()
        &&& self.projections_ok()
        &&& self.menus_ok()
    }

    /// Well-formed, except that the containers in `skip` may be out of step
    /// with their logical children.
    pub open spec fn inv_except(&self, skip: Set<int>) -> bool {
        &&& self.tree_ok()
        &&& self.natives_ok()
        &&& self.containers_ok_except(skip)
    }

    /// The engine's invariant: the native mirror matches the logical tree.
    pub open spec fn wf(&self) -> bool {
        self.inv_except(Set::empty())
    }

    /// `self` has the logical state of `old`; only projection stores and
    /// native widgets may differ.
    pub open spec fn same_logic(&self, old: MenuSystem) -> bool {
        &&& self.entries@.len() == old.entries@.len()
        &&& forall|e: int|
            0 <= e < self.entries@.len() ==> same_but_projections(
                #[trigger] self.entries@[e],
                old.entries@[e],
            )
        &&& self.rank == old.rank
        &&& self.rank_bound == old.rank_bound
        &&& self.ids == old.ids
    }

    /// Projection stores only grew, at their ends.
    pub open spec fn projections_grew(&self, old: MenuSystem) -> bool {
        forall|e: int|
            0 <= e < self.entries@.len() ==> old.entries@[e].projections@.len()
                <= (#[trigger] self.entries@[e]).projections@.len()
                && self.entries@[e].projections@.subrange(
                0,
                old.entries@[e].projections@.len() as int,
            ) == old.entries@[e].projections@
    }

    /// `self` has the tree of `old`: entries may differ in their state and
    /// projection stores only.
    pub open spec fn same_tree(&self, old: MenuSystem) -> bool {
        &&& self.entries@.len() == old.entries@.len()
        &&& forall|e: int|
            0 <= e < self.entries@.len() ==> same_structure(
                #[trigger] self.entries@[e],
                old.entries@[e],
            )
        &&& self.rank == old.rank
        &&& self.rank_bound == old.rank_bound
        &&& self.ids == old.ids
    }

    /// The same entries as in `old`, each with the same own state; only
    /// their places in the tree and their projections may differ.
    pub open spec fn contents_kept(&self, old: MenuSystem) -> bool {
        &&& self.entries@.len() == old.entries@.len()
        &&& forall|e: int| 0 <= e < self.entries@.len() ==> same_content(#[trigger] self.entries@[e], old.entries@[e])
    }

    /// The changes queued since `old` are exactly one creation per widget
    /// added since `old`, in the order of their handles, each naming the
    /// container the widget stands in.
    pub open spec fn creates_new_widgets(&self, old: MenuSystem) -> bool {
        &&& old.ops@.len() <= self.ops@.len()
        &&& old.widgets@.len() <= self.widgets@.len()
        &&& self.ops@.len() - old.ops@.len() == self.widgets@.len() - old.widgets@.len()
        &&& forall|i: int| 0 <= i < old.ops@.len() ==> #[trigger] self.ops@[i] == old.ops@[i]
        &&& forall|k: int|
            0 <= k < self.widgets@.len() - old.widgets@.len() ==> creates_widget(
                #[trigger] self.ops@[old.ops@.len() + k],
                (old.widgets@.len() + k) as usize,
                self.widgets@[old.widgets@.len() + k].role,
            )
    }

    /// Widget `h` is `x`, or stands in `x`'s native subtree through live
    /// containers.
    pub open spec fn under(&self, h: int, x: int) -> bool
        decreases h,
    {
        if h == x {
            true
        } else if 0 <= h < self.widgets@.len() && self.widgets@[h].role is Item
            && (self.widgets@[h].role->parent as int) < h {
            let p = self.widgets@[h].role->parent as int;
            self.alive(p) && self.under(p, x)
        } else {
            false
        }
    }

    pub proof fn lemma_under_ge(&self, h: int, x: int)
        requires
            self.under(h, x),
            0 <= h,
        ensures
            h >= x,
        decreases h,
    {
        if h != x {
            let p = self.widgets@[h].role->parent as int;
            self.lemma_under_ge(p, x);
        }
    }

    /// The changes queued since `old` only destroy widgets that were live in
    /// `old` and are dead now.
    pub open spec fn destroys_only(&self, old: MenuSystem) -> bool {
        &&& old.ops@.len() <= self.ops@.len()
        &&& forall|i: int| 0 <= i < old.ops@.len() ==> #[trigger] self.ops@[i] == old.ops@[i]
        &&& forall|i: int|
            old.ops@.len() <= i < self.ops@.len() ==> match #[trigger] self.ops@[i] {
                NativeOp::Destroy { handle } => old.alive(handle as int) && !self.alive(handle as int),
                _ => false,
            }
    }

    proof fn lemma_destroys_step(a: MenuSystem, b: MenuSystem, c: MenuSystem)
        requires
            b.destroys_only(c),
            a.destroys_only(b),
            forall|h: int| #[trigger] a.alive(h) ==> b.alive(h),
            forall|h: int| #[trigger] b.alive(h) ==> c.alive(h),
        ensures
            a.destroys_only(c),
    {
        assert forall|i: int| c.ops@.len() <= i < a.ops@.len() implies match #[trigger] a.ops@[i] {
            NativeOp::Destroy { handle } => c.alive(handle as int) && !a.alive(handle as int),
            _ => false,
        } by {
            if i < b.ops@.len() {
                assert(a.ops@[i] == b.ops@[i]);
            }
        }
    }

    /// Every menu lists the same entries as in `old`.
    pub open spec fn same_menu_entries(&self, old: MenuSystem) -> bool {
        &&& self.menus@.len() == old.menus@.len()
        &&& forall|m: int|
            0 <= m < self.menus@.len() ==> (#[trigger] self.menus@[m]).entries == old.menus@[m].entries
    }

    pub open spec fn widgets_unchanged_below(&self, old: MenuSystem, limit: int, except: int) -> bool {
        forall|h: int|
            0 <= h < limit && h != except ==> #[trigger] self.widgets@[h] == old.widgets@[h]
    }
}


/// The two widgets agree on everything but their children.
pub open spec fn same_but_children(a: Widget, b: Widget) -> bool {
    &&& a.role == b.role
    &&& a.label == b.label
    &&& a.sensitive == b.sensitive
    &&& a.active == b.active
    &&& a.alive == b.alive
}

impl MenuSystem {
    proof fn lemma_tree_frame(&self, old: MenuSystem)
        requires
            old.tree_ok(),
            self.same_tree(old),
            self.same_menu_entries(old),
        ensures
            self.tree_ok(),
    {
        let n = self.n_entries();
        assert forall|e: int| 0 <= e < n implies same_structure(
            #[trigger] self.entries@[e],
            old.entries@[e],
        ) by {}
        assert forall|m: int| 0 <= m < self.menus@.len() implies (#[trigger] self.menus@[m]).entries
            == old.menus@[m].entries by {}
        assert(self.ranks_ok()) by {
            reveal(MenuSystem::ranks_ok);
        }
        assert(self.children_ok()) by {
            reveal(MenuSystem::children_ok);
            assert forall|e: int, j: int|
                0 <= e < n && 0 <= j < self.entries@[e].children@.len() implies {
                    let c = #[trigger] self.entries@[e].children@[j] as int;
                    &&& 0 <= c < n
                    &&& self.entries@[c].owner == Owner::InSubmenu(e as usize)
                    &&& self.rank@[c] < self.rank@[e]
                } by {
                assert(same_structure(self.entries@[e], old.entries@[e]));
                let c = old.entries@[e].children@[j] as int;
                assert(same_structure(self.entries@[c], old.entries@[c]));
            }
        }
        assert(self.owners_ok()) by {
            reveal(MenuSystem::owners_ok);
            assert forall|e: int| 0 <= e < n implies {
                    &&& (#[trigger] self.entries@[e]).children@.no_duplicates()
                    &&& self.entries@[e].kind != ItemKind::Submenu ==> self.entries@[e].children@.len()
                        == 0
                    &&& match self.entries@[e].owner {
                        Owner::InSubmenu(p) => p < n && self.entries@[p as int].children@.contains(
                            e as usize,
                        ),
                        Owner::InMenu(m) => m < self.menus@.len() && self.menus@[m as int].entries@.contains(
                            e as usize,
                        ),
                        Owner::Detached => true,
                    }
                } by {
                assert(same_structure(self.entries@[e], old.entries@[e]));
                match self.entries@[e].owner {
                    Owner::InSubmenu(p) => {
                        assert(same_structure(self.entries@[p as int], old.entries@[p as int]));
                    },
                    Owner::InMenu(m) => {
                        assert(self.menus@[m as int].entries == old.menus@[m as int].entries);
                    },
                    _ => {},
                }
            }
        }
        assert(self.menu_lists_ok()) by {
            reveal(MenuSystem::menu_lists_ok);
            assert forall|m: int, j: int|
                0 <= m < self.menus@.len() && 0 <= j < self.menus@[m].entries@.len() implies {
                    let c = #[trigger] self.menus@[m].entries@[j] as int;
                    &&& 0 <= c < n
                    &&& self.entries@[c].owner == Owner::InMenu(m as usize)
                } by {
                assert(self.menus@[m].entries == old.menus@[m].entries);
                let c = self.menus@[m].entries@[j] as int;
                assert(same_structure(self.entries@[c], old.entries@[c]));
            }
            assert forall|m: int| 0 <= m < self.menus@.len() implies (#[trigger] self.menus@[m]).entries@.no_duplicates() by {
                assert(self.menus@[m].entries == old.menus@[m].entries);
            }
        }
        assert(self.ids_ok()) by {
            reveal(MenuSystem::ids_ok);
            assert forall|a: int, b: int|
                0 <= a < n && 0 <= b < n && a != b implies #[trigger] self.entries@[a].id
                    != #[trigger] self.entries@[b].id by {
                assert(same_structure(self.entries@[a], old.entries@[a]));
                assert(same_structure(self.entries@[b], old.entries@[b]));
            }
            assert forall|e: int| 0 <= e < n implies #[trigger] self.entries@[e].id < self.ids.next by {
                assert(same_structure(self.entries@[e], old.entries@[e]));
            }
        }
    }

    proof fn lemma_same_logic_tree(&self, old: MenuSystem)
        requires
            self.same_logic(old),
        ensures
            self.same_tree(old),
    {
        assert forall|e: int| 0 <= e < self.entries@.len() implies same_structure(
            #[trigger] self.entries@[e],
            old.entries@[e],
        ) by {
            assert(same_but_projections(self.entries@[e], old.entries@[e]));
        }
    }

    /// A change that keeps every old widget's role and liveness, keeps the
    /// logical state, and only grows projection stores keeps the
    /// registration of every old widget and the validity of every old
    /// projection.
    proof fn lemma_natives_frame(&self, old: MenuSystem)
        requires
            old.natives_ok(),
            self.same_logic(old),
            self.menus == old.menus,
            self.projections_grew(old),
            old.widgets@.len() <= self.widgets@.len(),
            forall|h: int|
                0 <= h < old.widgets@.len() ==> same_but_children(
                    #[trigger] self.widgets@[h],
                    old.widgets@[h],
                ),
        ensures
            forall|h: int| 0 <= h < old.widgets@.len() && #[trigger] self.alive(h) ==> self.role_ok(h) && self.registered(h),
            forall|e: int, k: int|
                0 <= e < self.n_entries() && 0 <= k < old.entries@[e].projections@.len()
                    ==> #[trigger] self.projection_ok(e, k),
            forall|m: int| 0 <= m < self.menus@.len() ==> #[trigger] self.menu_ok(m),
    {
        reveal(MenuSystem::widgets_registered);
        reveal(MenuSystem::projections_ok);
        reveal(MenuSystem::menus_ok);
        assert forall|h: int| 0 <= h < old.widgets@.len() && #[trigger] self.alive(h) implies self.role_ok(h) && self.registered(h) by {
            assert(same_but_children(self.widgets@[h], old.widgets@[h]));
            assert(old.alive(h));
            match self.widgets@[h].role {
                Role::Item { entry, parent } => {
                    let k = choose|k: int|
                        0 <= k < old.entries@[entry as int].projections@.len()
                            && #[trigger] old.entries@[entry as int].projections@[k] == (Projection {
                            parent,
                            widget: h as usize,
                        });
                    let ps = self.entries@[entry as int].projections@;
                    assert(ps.subrange(0, old.entries@[entry as int].projections@.len() as int)[k] == ps[k]);
                    assert(ps[k] == (Projection { parent, widget: h as usize }));
                },
                Role::Bar { menu } => {
                },
            }
        }
        assert forall|e: int, k: int|
            0 <= e < self.n_entries() && 0 <= k < old.entries@[e].projections@.len()
                implies #[trigger] self.projection_ok(e, k) by {
            assert(old.projection_ok(e, k));
            let ps = self.entries@[e].projections@;
            assert(ps.subrange(0, old.entries@[e].projections@.len() as int)[k] == ps[k]);
            assert(same_but_projections(self.entries@[e], old.entries@[e]));
            let x = ps[k].widget as int;
            assert(same_but_children(self.widgets@[x], old.widgets@[x]));
        }
        assert forall|m: int| 0 <= m < self.menus@.len() implies #[trigger] self.menu_ok(m) by {
            assert(old.menu_ok(m));
            let md = self.menus@[m];
            assert forall|b: int| 0 <= b < md.bars@.len() implies {
                let h = (#[trigger] md.bars@[b]).bar as int;
                self.alive(h) && self.widgets@[h].role == (Role::Bar { menu: m as usize })
            } by {
                let h = md.bars@[b].bar as int;
                assert(same_but_children(self.widgets@[h], old.widgets@[h]));
            }
            match md.context {
                Some(c) => {
                    assert(same_but_children(self.widgets@[c as int], old.widgets@[c as int]));
                },
                None => {},
            }
        }
    }

    /// Adds one widget for entry `e` at `pos` in the container `parent`, and
    /// registers it. The new widget's own children are still to come.
    fn add_widget(&mut self, e: usize, parent: usize, pos: usize, Ghost(skip): Ghost<Set<int>>) -> (x:
        usize)
        requires
            old(self).inv_except(skip),
            forall|h: int| skip.contains(h) ==> 0 <= h < old(self).widgets@.len(),
            skip.contains(parent as int),
            (e as int) < old(self).n_entries(),
            old(self).alive(parent as int),
            pos <= old(self).widgets@[parent as int].children@.len(),
        ensures
            x == old(self).widgets@.len(),
            final(self).widgets@.len() == x + 1,
            final(self).inv_except(skip.insert(x as int)),
            final(self).same_logic(*old(self)),
            final(self).menus == old(self).menus,
            final(self).projections_grew(*old(self)),
            final(self).widgets_unchanged_below(
                *old(self),
                old(self).widgets@.len() as int,
                parent as int,
            ),
            same_but_children(final(self).widgets@[parent as int], old(self).widgets@[parent as int]),
            final(self).widgets@[parent as int].children@ == old(self).widgets@[parent as int].children@.insert(
                pos as int,
                x,
            ),
            final(self).alive(x as int),
            final(self).widgets@[x as int].role == (Role::Item { entry: e, parent }),
            final(self).widgets@[x as int].children@.len() == 0,
            final(self).ops@ == old(self).ops@.push(final(self).ops@.last()),
            creates_item(final(self).ops@.last(), x, parent, pos, old(self).entries@[e as int]),
            final(self).creates_new_widgets(*old(self)),
    {
        let ghost s0 = *self;
        let label = to_native(&self.entries[e].text);
        let op_label = to_native(&self.entries[e].text);
        let sensitive = self.entries[e].enabled;
        let kind = self.entries[e].kind;
        let active = kind == ItemKind::Check && self.entries[e].checked;
        let x = self.widgets.len();
        self.widgets.push(
            Widget {
                role: Role::Item { entry: e, parent },
                label,
                sensitive,
                active,
                children: Vec::new(),
                alive: true,
            },
        );
        self.widgets[parent].children.insert(pos, x);
        self.entries[e].projections.push(Projection { parent, widget: x });
        self.ops.push(
            NativeOp::CreateItem {
                handle: x,
                parent,
                position: pos,
                entry_id: self.entries[e].id,
                kind,
                label: op_label,
                sensitive,
                active,
                accelerator: self.entries[e].accelerator,
            },
        );
        let ghost skip2 = skip.insert(x as int);
        proof {
            assert forall|i: int| 0 <= i < self.n_entries() implies same_but_projections(
                #[trigger] self.entries@[i],
                s0.entries@[i],
            ) by {}
            assert(self.same_logic(s0));
            assert forall|i: int| 0 <= i < self.n_entries() implies s0.entries@[i].projections@.len()
                <= (#[trigger] self.entries@[i]).projections@.len()
                && self.entries@[i].projections@.subrange(
                0,
                s0.entries@[i].projections@.len() as int,
            ) == s0.entries@[i].projections@ by {
                if i == e as int {
                    assert(self.entries@[i].projections@.subrange(
                        0,
                        s0.entries@[i].projections@.len() as int,
                    ) =~= s0.entries@[i].projections@);
                }
            }
            assert(self.projections_grew(s0));
            assert forall|h: int| 0 <= h < s0.widgets@.len() implies same_but_children(
                #[trigger] self.widgets@[h],
                s0.widgets@[h],
            ) by {}
            self.lemma_same_logic_tree(s0);
            self.lemma_tree_frame(s0);
            self.lemma_natives_frame(s0);
            reveal(MenuSystem::widgets_registered);
            reveal(MenuSystem::projections_ok);
            reveal(MenuSystem::menus_ok);
            let pk = s0.entries@[e as int].projections@.len() as int;
            assert(self.entries@[e as int].projections@[pk] == (Projection { parent, widget: x }));
            assert(self.projection_ok(e as int, pk));
            assert(self.registered(x as int));
            assert forall|h: int| #[trigger] self.alive(h) implies self.role_ok(h) && self.registered(h) by {
                if h < s0.widgets@.len() {
                } else {
                    assert(h == x as int);
                }
            }
            assert forall|i: int, k: int|
                0 <= i < self.n_entries() && 0 <= k < self.entries@[i].projections@.len()
                    implies #[trigger] self.projection_ok(i, k) by {
                if k >= s0.entries@[i].projections@.len() {
                    assert(i == e as int);
                    assert(k == pk);
                }
            }
            assert(self.natives_ok());
            reveal(MenuSystem::containers_ok_except);
            assert forall|h: int| #[trigger] self.alive(h) && !skip2.contains(h) implies self.container_ok(h) by {
                assert(h < s0.widgets@.len());
                assert(h != parent as int);
                assert(s0.alive(h));
                assert(s0.container_ok(h));
                assert(self.widgets@[h] == s0.widgets@[h]);
                assert(self.shown(h) == s0.shown(h)) by {
                    match self.widgets@[h].role {
                        Role::Item { entry, .. } => {
                            assert(same_but_projections(self.entries@[entry as int], s0.entries@[entry as int]));
                        },
                        _ => {},
                    }
                }
                assert forall|j: int| 0 <= j < self.shown(h).len() implies #[trigger] self.child_ok(h, j) by {
                    assert(s0.child_ok(h, j));
                    let c = self.widgets@[h].children@[j] as int;
                    assert(same_but_children(self.widgets@[c], s0.widgets@[c]));
                }
            }
        }
        x
    }

    /// What the tree says of the `j`-th child of `e`.
    pub proof fn lemma_child(&self, e: int, j: int)
        requires
            self.tree_ok(),
            0 <= e < self.n_entries(),
            0 <= j < self.entries@[e].children@.len(),
        ensures
            ({
                let c = self.entries@[e].children@[j] as int;
                &&& 0 <= c < self.n_entries()
                &&& self.entries@[c].owner == Owner::InSubmenu(e as usize)
                &&& self.rank@[c] < self.rank@[e]
            }),
    {
        reveal(MenuSystem::children_ok);
    }

    proof fn lemma_creates_trans(a: MenuSystem, b: MenuSystem, c: MenuSystem)
        requires
            a.creates_new_widgets(b),
            b.creates_new_widgets(c),
            forall|h: int| c.widgets@.len() <= h < b.widgets@.len() ==> (#[trigger] a.widgets@[h]).role == b.widgets@[h].role,
        ensures
            a.creates_new_widgets(c),
    {
        assert forall|k: int| 0 <= k < a.widgets@.len() - c.widgets@.len() implies creates_widget(
            #[trigger] a.ops@[c.ops@.len() + k],
            (c.widgets@.len() + k) as usize,
            a.widgets@[c.widgets@.len() + k].role,
        ) by {
            if k < b.widgets@.len() - c.widgets@.len() {
                assert(a.ops@[c.ops@.len() + k] == b.ops@[c.ops@.len() + k]);
                assert(a.widgets@[c.widgets@.len() + k].role == b.widgets@[c.widgets@.len() + k].role);
            } else {
                let k2 = k - (b.widgets@.len() - c.widgets@.len());
                assert(b.ops@.len() + k2 == c.ops@.len() + k);
                assert(a.ops@[b.ops@.len() + k2] == a.ops@[c.ops@.len() + k]);
            }
        }
    }

    proof fn lemma_same_logic_trans(a: MenuSystem, b: MenuSystem, c: MenuSystem)
        requires
            a.same_logic(b),
            b.same_logic(c),
        ensures
            a.same_logic(c),
    {
        assert forall|e: int| 0 <= e < a.entries@.len() implies same_but_projections(
            #[trigger] a.entries@[e],
            c.entries@[e],
        ) by {
            assert(same_but_projections(a.entries@[e], b.entries@[e]));
            assert(same_but_projections(b.entries@[e], c.entries@[e]));
        }
    }

    proof fn lemma_grew_trans(a: MenuSystem, b: MenuSystem, c: MenuSystem)
        requires
            a.projections_grew(b),
            b.projections_grew(c),
            a.entries@.len() == b.entries@.len(),
            b.entries@.len() == c.entries@.len(),
        ensures
            a.projections_grew(c),
    {
        assert forall|e: int| 0 <= e < a.entries@.len() implies c.entries@[e].projections@.len()
            <= (#[trigger] a.entries@[e]).projections@.len()
            && a.entries@[e].projections@.subrange(0, c.entries@[e].projections@.len() as int)
            == c.entries@[e].projections@ by {
            let pa = a.entries@[e].projections@;
            let pb = b.entries@[e].projections@;
            let pc = c.entries@[e].projections@;
            assert(pb.subrange(0, pc.len() as int) == pc);
            assert(pa.subrange(0, pb.len() as int) == pb);
            assert(pa.subrange(0, pc.len() as int) =~= pc);
        }
    }

    proof fn lemma_project_step(
        &self,
        s1: MenuSystem,
        s0: MenuSystem,
        e: usize,
        parent: usize,
        x: usize,
        j: usize,
        y: usize,
    )
        requires
            (parent as int) < s0.widgets@.len(),
            x == s0.widgets@.len(),
            x < s1.widgets@.len(),
            s1.widgets@.len() <= self.widgets@.len(),
            s1.widgets@[x as int].role == (Role::Item { entry: e, parent }),
            (e as int) < s1.n_entries(),
            self.same_logic(s1),
            self.menus == s1.menus,
            s1.widgets_unchanged_below(s0, s0.widgets@.len() as int, parent as int),
            self.widgets_unchanged_below(s1, s1.widgets@.len() as int, x as int),
            same_but_children(self.widgets@[x as int], s1.widgets@[x as int]),
            self.widgets@[x as int].children@ == s1.widgets@[x as int].children@.insert(j as int, y),
            s1.widgets@[x as int].children@.len() == j,
            forall|i: int| 0 <= i < j ==> #[trigger] s1.child_ok(x as int, i),
            j < s1.entries@[e as int].children@.len(),
            self.alive(y as int),
            self.widgets@[y as int].role == (Role::Item {
                entry: s1.entries@[e as int].children@[j as int],
                parent: x,
            }),
        ensures
            self.widgets_unchanged_below(s0, s0.widgets@.len() as int, parent as int),
            self.widgets@[parent as int] == s1.widgets@[parent as int],
            forall|i: int| 0 <= i < j + 1 ==> #[trigger] self.child_ok(x as int, i),
    {
        assert forall|h: int| 0 <= h < s0.widgets@.len() && h != parent as int implies #[trigger] self.widgets@[h] == s0.widgets@[h] by {
            assert(s1.widgets@[h] == s0.widgets@[h]);
            assert(self.widgets@[h] == s1.widgets@[h]);
        }
        assert(self.widgets@[parent as int] == s1.widgets@[parent as int]);
        assert(same_but_projections(self.entries@[e as int], s1.entries@[e as int]));
        assert(self.shown(x as int) == s1.shown(x as int));
        assert forall|i: int| 0 <= i < j + 1 implies #[trigger] self.child_ok(x as int, i) by {
            if i < j {
                assert(s1.child_ok(x as int, i));
                let ch = s1.widgets@[x as int].children@[i] as int;
                assert(self.widgets@[x as int].children@[i] as int == ch);
                assert(ch != x as int);
                assert(self.widgets@[ch] == s1.widgets@[ch]);
            } else {
                assert(self.widgets@[x as int].children@[i] == y);
            }
        }
    }

    /// The projector: creates the native widgets for entry `e` and its whole
    /// subtree, registers them in the projection stores, and places the
    /// widget for `e` at `pos` among the children of the container `parent`.
    fn project(&mut self, e: usize, parent: usize, pos: usize, Ghost(skip): Ghost<Set<int>>) -> (x:
        usize)
        requires
            old(self).inv_except(skip),
            forall|h: int| skip.contains(h) ==> 0 <= h < old(self).widgets@.len(),
            skip.contains(parent as int),
            (e as int) < old(self).n_entries(),
            old(self).alive(parent as int),
            pos <= old(self).widgets@[parent as int].children@.len(),
        ensures
            x == old(self).widgets@.len(),
            x < final(self).widgets@.len(),
            old(self).widgets@.len() <= final(self).widgets@.len(),
            final(self).inv_except(skip),
            final(self).same_logic(*old(self)),
            final(self).menus == old(self).menus,
            final(self).projections_grew(*old(self)),
            final(self).widgets_unchanged_below(
                *old(self),
                old(self).widgets@.len() as int,
                parent as int,
            ),
            same_but_children(final(self).widgets@[parent as int], old(self).widgets@[parent as int]),
            final(self).widgets@[parent as int].children@ == old(self).widgets@[parent as int].children@.insert(
                pos as int,
                x,
            ),
            final(self).alive(x as int),
            final(self).widgets@[x as int].role == (Role::Item { entry: e, parent }),
            final(self).creates_new_widgets(*old(self)),
        decreases old(self).rank@[e as int],
    {
        let ghost s0 = *self;
        let x = self.add_widget(e, parent, pos, Ghost(skip));
        let ghost skip2 = skip.insert(x as int);
        let ghost s_added = *self;
        let n = self.entries[e].children.len();
        let mut j: usize = 0;
        while j < n
            invariant
                self.creates_new_widgets(s0),
                0 <= j <= n,
                n == self.entries@[e as int].children@.len(),
                n == s_added.entries@[e as int].children@.len(),
                (e as int) < self.n_entries(),
                (parent as int) < s0.widgets@.len(),
                x < self.widgets@.len(),
                x == s0.widgets@.len(),
                s0 == *old(self),
                skip2 == skip.insert(x as int),
                forall|h: int| skip.contains(h) ==> 0 <= h < s0.widgets@.len(),
                s0.tree_ok(),
                s_added.same_logic(s0),
                self.inv_except(skip2),
                self.same_logic(s0),
                self.menus == s0.menus,
                self.projections_grew(s0),
                self.widgets_unchanged_below(s0, s0.widgets@.len() as int, parent as int),
                same_but_children(self.widgets@[parent as int], s0.widgets@[parent as int]),
                self.widgets@[parent as int].children@ == s0.widgets@[parent as int].children@.insert(
                    pos as int,
                    x,
                ),
                self.alive(x as int),
                self.widgets@[x as int].role == (Role::Item { entry: e, parent }),
                self.widgets@[x as int].children@.len() == j,
                forall|i: int| 0 <= i < j ==> #[trigger] self.child_ok(x as int, i),
            decreases n - j,
        {
            let c = self.entries[e].children[j];
            let ghost s1 = *self;
            proof {
                assert(same_but_projections(self.entries@[e as int], s0.entries@[e as int]));
                assert(s0.entries@[e as int].children@[j as int] == c);
                s0.lemma_child(e as int, j as int);
                assert(self.rank == s0.rank);
                assert(self.rank@[c as int] < s0.rank@[e as int]);
                assert(s0.rank@[e as int] == old(self).rank@[e as int]);
            }
            let y = self.project(c, x, j, Ghost(skip2));
            proof {
                Self::lemma_same_logic_trans(*self, s1, s0);
                Self::lemma_grew_trans(*self, s1, s0);
                self.lemma_project_step(s1, s0, e, parent, x, j, y);
                assert forall|h: int| s0.widgets@.len() <= h < s1.widgets@.len() implies (#[trigger] self.widgets@[h]).role == s1.widgets@[h].role by {
                    if h != x as int {
                        assert(self.widgets@[h] == s1.widgets@[h]);
                    }
                }
                Self::lemma_creates_trans(*self, s1, s0);
            }
            j = j + 1;
        }
        proof {
            reveal(MenuSystem::containers_ok_except);
            assert(self.container_ok(x as int));
            assert forall|h: int| #[trigger] self.alive(h) && !skip.contains(h) implies self.container_ok(h) by {
                if h != x as int {
                    assert(!skip2.contains(h));
                }
            }
        }
        x
    }

    /// An engine with no entries, menus or widgets.
    pub fn new() -> (r: MenuSystem)
        ensures
            r.wf(),
            r.entries@.len() == 0,
            r.menus@.len() == 0,
            r.widgets@.len() == 0,
            r.ops@.len() == 0,
            r.ids.next == 1,
    {
        let r = MenuSystem {
            entries: Vec::new(),
            menus: Vec::new(),
            widgets: Vec::new(),
            ops: Vec::new(),
            ids: IdCounter::new(),
            rank: Ghost(Seq::empty()),
            rank_bound: Ghost(1),
        };
        proof {
            reveal(MenuSystem::ranks_ok);
            reveal(MenuSystem::children_ok);
            reveal(MenuSystem::owners_ok);
            reveal(MenuSystem::menu_lists_ok);
            reveal(MenuSystem::ids_ok);
            reveal(MenuSystem::widgets_registered);
            reveal(MenuSystem::projections_ok);
            reveal(MenuSystem::menus_ok);
            reveal(MenuSystem::containers_ok_except);
        }
        r
    }

    /// Creates a detached logical entry with a fresh identifier.
    #[verifier::spinoff_prover]
    #[verifier::rlimit(60)]
    pub fn add_entry(
        &mut self,
        text: Vec<char>,
        enabled: bool,
        checked: bool,
        accelerator: Option<Accelerator>,
        kind: ItemKind,
    ) -> (r: usize)
        requires
            old(self).wf(),
            old(self).ids.next < u32::MAX,
        ensures
            final(self).wf(),
            r == old(self).entries@.len(),
            final(self).entries@.len() == r + 1,
            forall|e: int| 0 <= e < r ==> #[trigger] final(self).entries@[e] == old(self).entries@[e],
            final(self).entries@[r as int].id == old(self).ids.next,
            final(self).entries@[r as int].text@ == text@,
            final(self).entries@[r as int].enabled == enabled,
            final(self).entries@[r as int].checked == checked,
            final(self).entries@[r as int].accelerator == accelerator,
            final(self).entries@[r as int].kind == kind,
            final(self).entries@[r as int].children@.len() == 0,
            final(self).entries@[r as int].owner == Owner::Detached,
            final(self).entries@[r as int].projections@.len() == 0,
            !final(self).entries@[r as int].syncing,
            final(self).ids.next == old(self).ids.next + 1,
            final(self).menus == old(self).menus,
            final(self).widgets == old(self).widgets,
    {
        let ghost s0 = *self;
        let id = self.ids.next();
        let r = self.entries.len();
        self.entries.push(
            Entry {
                id,
                text,
                enabled,
                checked,
                accelerator,
                kind,
                children: Vec::new(),
                owner: Owner::Detached,
                projections: Vec::new(),
                syncing: false,
            },
        );
        self.rank = Ghost(self.rank@.push(0));
        proof {
            let n = self.n_entries();
            assert(s0.rank@.len() == r) by {
                reveal(MenuSystem::ranks_ok);
            }
            assert forall|e: int| 0 <= e < r implies #[trigger] self.entries@[e] == s0.entries@[e] && self.rank@[e] == s0.rank@[e] by {}
            assert(self.ranks_ok()) by {
                reveal(MenuSystem::ranks_ok);
            }
            assert(self.children_ok()) by {
                reveal(MenuSystem::children_ok);
                assert forall|e: int, j: int|
                    0 <= e < n && 0 <= j < self.entries@[e].children@.len() implies {
                        let c = #[trigger] self.entries@[e].children@[j] as int;
                        &&& 0 <= c < n
                        &&& self.entries@[c].owner == Owner::InSubmenu(e as usize)
                        &&& self.rank@[c] < self.rank@[e]
                    } by {
                    assert(e < r);
                    let c = s0.entries@[e].children@[j] as int;
                    assert(c < r);
                }
            }
            assert(self.owners_ok()) by {
                reveal(MenuSystem::owners_ok);
                assert forall|e: int| 0 <= e < n implies {
                        &&& (#[trigger] self.entries@[e]).children@.no_duplicates()
                        &&& self.entries@[e].kind != ItemKind::Submenu ==> self.entries@[e].children@.len()
                            == 0
                        &&& match self.entries@[e].owner {
                            Owner::InSubmenu(p) => p < n && self.entries@[p as int].children@.contains(
                                e as usize,
                            ),
                            Owner::InMenu(m) => m < self.menus@.len() && self.menus@[m as int].entries@.contains(
                                e as usize,
                            ),
                            Owner::Detached => true,
                        }
                    } by {
                    if e < r {
                        match self.entries@[e].owner {
                            Owner::InSubmenu(p) => {
                                assert(s0.entries@[p as int] == self.entries@[p as int]);
                            },
                            _ => {},
                        }
                    }
                }
            }
            assert(self.menu_lists_ok()) by {
                reveal(MenuSystem::menu_lists_ok);
                assert forall|m: int, j: int|
                    0 <= m < self.menus@.len() && 0 <= j < self.menus@[m].entries@.len() implies {
                        let c = #[trigger] self.menus@[m].entries@[j] as int;
                        &&& 0 <= c < n
                        &&& self.entries@[c].owner == Owner::InMenu(m as usize)
                    } by {
                    let c = self.menus@[m].entries@[j] as int;
                    assert(c < r);
                }
            }
            assert(self.ids_ok()) by {
                reveal(MenuSystem::ids_ok);
                assert forall|a: int, b: int|
                    0 <= a < n && 0 <= b < n && a != b implies #[trigger] self.entries@[a].id
                        != #[trigger] self.entries@[b].id by {
                    if a < r && b < r {
                        assert(s0.entries@[a].id != s0.entries@[b].id);
                    } else if a < r {
                        assert(s0.entries@[a].id < s0.ids.next);
                    } else if b < r {
                        assert(s0.entries@[b].id < s0.ids.next);
                    }
                }
                assert forall|e: int| 0 <= e < n implies #[trigger] self.entries@[e].id < self.ids.next by {
                    if e < r {
                        assert(s0.entries@[e].id < s0.ids.next);
                    }
                }
            }
            assert(self.widgets_registered()) by {
                reveal(MenuSystem::widgets_registered);
                assert forall|h: int| #[trigger] self.alive(h) implies self.role_ok(h) && self.registered(h) by {
                    assert(s0.alive(h));
                    match self.widgets@[h].role {
                        Role::Item { entry, parent } => {
                            assert(self.entries@[entry as int] == s0.entries@[entry as int]);
                        },
                        _ => {},
                    }
                }
            }
            assert(self.projections_ok()) by {
                reveal(MenuSystem::projections_ok);
                assert forall|e: int, k: int|
                    0 <= e < self.n_entries() && 0 <= k < self.entries@[e].projections@.len()
                        implies #[trigger] self.projection_ok(e, k) by {
                    assert(s0.projection_ok(e, k));
                }
            }
            assert(self.menus_ok()) by {
                reveal(MenuSystem::menus_ok);
                assert forall|m: int| 0 <= m < self.menus@.len() implies #[trigger] self.menu_ok(m) by {
                    assert(s0.menu_ok(m));
                }
            }
            assert(self.containers_ok_except(Set::empty())) by {
                reveal(MenuSystem::containers_ok_except);
                reveal(MenuSystem::widgets_registered);
                assert forall|h: int| #[trigger] self.alive(h) && !Set::<int>::empty().contains(h) implies self.container_ok(h) by {
                    assert(s0.alive(h));
                    assert(s0.container_ok(h));
                    assert(s0.role_ok(h));
                    assert(self.shown(h) == s0.shown(h)) by {
                        match self.widgets@[h].role {
                            Role::Item { entry, .. } => {
                                assert(self.entries@[entry as int] == s0.entries@[entry as int]);
                            },
                            _ => {},
                        }
                    }
                    assert forall|j: int| 0 <= j < self.shown(h).len() implies #[trigger] self.child_ok(h, j) by {
                        assert(s0.child_ok(h, j));
                    }
                }
            }
        }
        r
    }

    /// Creates a menu root with no entries and no native projection.
    #[verifier::spinoff_prover]
    #[verifier::rlimit(60)]
    pub fn add_menu(&mut self) -> (r: usize)
        requires
            old(self).wf(),
        ensures
            final(self).wf(),
            r == old(self).menus@.len(),
            final(self).menus@.len() == r + 1,
            forall|m: int| 0 <= m < r ==> #[trigger] final(self).menus@[m] == old(self).menus@[m],
            final(self).menus@[r as int].entries@.len() == 0,
            final(self).menus@[r as int].bars@.len() == 0,
            final(self).menus@[r as int].context.is_none(),
            final(self).entries == old(self).entries,
            final(self).widgets == old(self).widgets,
            final(self).ids == old(self).ids,
    {
        let ghost s0 = *self;
        let r = self.menus.len();
        self.menus.push(MenuData { entries: Vec::new(), bars: Vec::new(), context: None });
        proof {
            let n = self.n_entries();
            assert forall|m: int| 0 <= m < r implies #[trigger] self.menus@[m] == s0.menus@[m] by {}
            assert(self.ranks_ok()) by {
                reveal(MenuSystem::ranks_ok);
            }
            assert(self.children_ok()) by {
                reveal(MenuSystem::children_ok);
            }
            assert(self.ids_ok()) by {
                reveal(MenuSystem::ids_ok);
            }
            assert(self.owners_ok()) by {
                reveal(MenuSystem::owners_ok);
                assert forall|e: int| 0 <= e < n implies {
                        &&& (#[trigger] self.entries@[e]).children@.no_duplicates()
                        &&& self.entries@[e].kind != ItemKind::Submenu ==> self.entries@[e].children@.len()
                            == 0
                        &&& match self.entries@[e].owner {
                            Owner::InSubmenu(p) => p < n && self.entries@[p as int].children@.contains(
                                e as usize,
                            ),
                            Owner::InMenu(m) => m < self.menus@.len() && self.menus@[m as int].entries@.contains(
                                e as usize,
                            ),
                            Owner::Detached => true,
                        }
                    } by {
                    match self.entries@[e].owner {
                        Owner::InMenu(m) => {
                            assert(self.menus@[m as int] == s0.menus@[m as int]);
                        },
                        _ => {},
                    }
                }
            }
            assert(self.menu_lists_ok()) by {
                reveal(MenuSystem::menu_lists_ok);
                assert forall|m: int, j: int|
                    0 <= m < self.menus@.len() && 0 <= j < self.menus@[m].entries@.len() implies {
                        let c = #[trigger] self.menus@[m].entries@[j] as int;
                        &&& 0 <= c < n
                        &&& self.entries@[c].owner == Owner::InMenu(m as usize)
                    } by {
                    assert(m < r);
                }
            }
            assert(self.widgets_registered()) by {
                reveal(MenuSystem::widgets_registered);
                assert forall|h: int| #[trigger] self.alive(h) implies self.role_ok(h) && self.registered(h) by {
                    assert(s0.alive(h));
                    match self.widgets@[h].role {
                        Role::Bar { menu } => {
                            assert(self.menus@[menu as int] == s0.menus@[menu as int]);
                        },
                        _ => {},
                    }
                }
            }
            assert(self.projections_ok()) by {
                reveal(MenuSystem::projections_ok);
                assert forall|e: int, k: int|
                    0 <= e < self.n_entries() && 0 <= k < self.entries@[e].projections@.len()
                        implies #[trigger] self.projection_ok(e, k) by {
                    assert(s0.projection_ok(e, k));
                }
            }
            assert(self.menus_ok()) by {
                reveal(MenuSystem::menus_ok);
                assert forall|m: int| 0 <= m < self.menus@.len() implies #[trigger] self.menu_ok(m) by {
                    if m < r {
                        assert(s0.menu_ok(m));
                    }
                }
            }
            assert(self.containers_ok_except(Set::empty())) by {
                reveal(MenuSystem::containers_ok_except);
                reveal(MenuSystem::widgets_registered);
                assert forall|h: int| #[trigger] self.alive(h) && !Set::<int>::empty().contains(h) implies self.container_ok(h) by {
                    assert(s0.alive(h));
                    assert(s0.container_ok(h));
                    assert(s0.role_ok(h));
                    assert(self.shown(h) == s0.shown(h)) by {
                        match self.widgets@[h].role {
                            Role::Bar { menu } => {
                                assert(self.menus@[menu as int] == s0.menus@[menu as int]);
                            },
                            _ => {},
                        }
                    }
                    assert forall|j: int| 0 <= j < self.shown(h).len() implies #[trigger] self.child_ok(h, j) by {
                        assert(s0.child_ok(h, j));
                    }
                }
            }
        }
        r
    }

    /// Creates the native root of menu `m`: its menu bar for `window`, or
    /// its context menu when `window` is `None`. The root's children are
    /// still to come.
    #[verifier::spinoff_prover]
    #[verifier::rlimit(60)]
    fn add_root(&mut self, m: usize, window: Option<u64>) -> (b: usize)
        requires
            old(self).wf(),
            (m as int) < old(self).menus@.len(),
            window.is_none() ==> old(self).menus@[m as int].context.is_none(),
        ensures
            b == old(self).widgets@.len(),
            final(self).widgets@.len() == b + 1,
            final(self).inv_except(set![b as int]),
            final(self).entries == old(self).entries,
            final(self).rank == old(self).rank,
            final(self).rank_bound == old(self).rank_bound,
            final(self).ids == old(self).ids,
            final(self).same_menu_entries(*old(self)),
            forall|h: int| 0 <= h < b ==> #[trigger] final(self).widgets@[h] == old(self).widgets@[h],
            final(self).alive(b as int),
            final(self).widgets@[b as int].role == (Role::Bar { menu: m }),
            final(self).widgets@[b as int].children@.len() == 0,
            forall|i: int| 0 <= i < final(self).menus@.len() && i != m ==> #[trigger] final(self).menus@[i] == old(self).menus@[i],
            match window {
                Some(w) => final(self).menus@[m as int].bars@ == old(self).menus@[m as int].bars@.push(WindowBar { window: w, bar: b }) && final(self).menus@[m as int].context == old(self).menus@[m as int].context,
                None => final(self).menus@[m as int].bars == old(self).menus@[m as int].bars && final(self).menus@[m as int].context == Some(b),
            },
            final(self).ops@ == old(self).ops@.push(match window {
                Some(w) => NativeOp::CreateBar { handle: b, window: w },
                None => NativeOp::CreateContextMenu { handle: b },
            }),
            final(self).creates_new_widgets(*old(self)),
    {
        let ghost s0 = *self;
        let b = self.widgets.len();
        self.widgets.push(
            Widget {
                role: Role::Bar { menu: m },
                label: Vec::new(),
                sensitive: true,
                active: false,
                children: Vec::new(),
                alive: true,
            },
        );
        match window {
            Some(w) => {
                self.menus[m].bars.push(WindowBar { window: w, bar: b });
                self.ops.push(NativeOp::CreateBar { handle: b, window: w });
            },
            None => {
                self.menus[m].context = Some(b);
                self.ops.push(NativeOp::CreateContextMenu { handle: b });
            },
        }
        proof {
            let skip = set![b as int];
            assert forall|e: int| 0 <= e < self.n_entries() implies same_but_projections(
                #[trigger] self.entries@[e],
                s0.entries@[e],
            ) by {}
            assert forall|i: int| 0 <= i < self.menus@.len() implies (#[trigger] self.menus@[i]).entries
                == s0.menus@[i].entries by {}
            self.lemma_same_logic_tree(s0);
            self.lemma_tree_frame(s0);
            assert forall|h: int| 0 <= h < b implies #[trigger] self.widgets@[h] == s0.widgets@[h] by {}
            assert(self.widgets_registered()) by {
                reveal(MenuSystem::widgets_registered);
                assert forall|h: int| #[trigger] self.alive(h) implies self.role_ok(h) && self.registered(h) by {
                    if h < b {
                        assert(s0.alive(h));
                        match self.widgets@[h].role {
                            Role::Bar { menu } => {
                                if menu == m {
                                    if s0.menus@[m as int].context == Some(h as usize) {
                                    } else {
                                        let k = choose|k: int| 0 <= k < s0.menus@[m as int].bars@.len() && #[trigger] s0.menus@[m as int].bars@[k].bar == h as usize;
                                        assert(self.menus@[m as int].bars@[k] == s0.menus@[m as int].bars@[k]);
                                    }
                                } else {
                                    assert(self.menus@[menu as int] == s0.menus@[menu as int]);
                                }
                            },
                            _ => {},
                        }
                    } else {
                        assert(h == b);
                        match window {
                            Some(w) => {
                                let k = s0.menus@[m as int].bars@.len() as int;
                                assert(self.menus@[m as int].bars@[k].bar == b);
                            },
                            None => {},
                        }
                    }
                }
            }
            assert(self.projections_ok()) by {
                reveal(MenuSystem::projections_ok);
                assert forall|e: int, k: int|
                    0 <= e < self.n_entries() && 0 <= k < self.entries@[e].projections@.len()
                        implies #[trigger] self.projection_ok(e, k) by {
                    assert(s0.projection_ok(e, k));
                }
            }
            assert(self.menus_ok()) by {
                reveal(MenuSystem::menus_ok);
                assert forall|i: int| 0 <= i < self.menus@.len() implies #[trigger] self.menu_ok(i) by {
                    assert(s0.menu_ok(i));
                    if i == m as int {
                        let md = self.menus@[i];
                        assert forall|k: int| 0 <= k < md.bars@.len() implies {
                            let h = (#[trigger] md.bars@[k]).bar as int;
                            self.alive(h) && self.widgets@[h].role == (Role::Bar { menu: i as usize })
                        } by {
                            if k < s0.menus@[i].bars@.len() {
                                assert(md.bars@[k] == s0.menus@[i].bars@[k]);
                            }
                        }
                    }
                }
            }
            assert(self.containers_ok_except(skip)) by {
                reveal(MenuSystem::containers_ok_except);
                reveal(MenuSystem::widgets_registered);
                assert forall|h: int| #[trigger] self.alive(h) && !skip.contains(h) implies self.container_ok(h) by {
                    assert(h < b);
                    assert(s0.alive(h));
                    assert(s0.container_ok(h));
                    assert(s0.role_ok(h));
                    assert(self.shown(h) == s0.shown(h));
                    assert forall|j: int| 0 <= j < self.shown(h).len() implies #[trigger] self.child_ok(h, j) by {
                        assert(s0.child_ok(h, j));
                    }
                }
            }
        }
        b
    }

    /// Projects every top-level entry of menu `m` into its new root `b`.
    fn fill_root(&mut self, m: usize, b: usize)
        requires
            old(self).inv_except(set![b as int]),
            (m as int) < old(self).menus@.len(),
            old(self).alive(b as int),
            old(self).widgets@[b as int].role == (Role::Bar { menu: m }),
            old(self).widgets@[b as int].children@.len() == 0,
        ensures
            final(self).wf(),
            final(self).same_logic(*old(self)),
            final(self).menus == old(self).menus,
            final(self).alive(b as int),
            final(self).widgets@[b as int].role == (Role::Bar { menu: m }),
            old(self).widgets@.len() <= final(self).widgets@.len(),
            forall|h: int| 0 <= h < old(self).widgets@.len() && h != b ==> #[trigger] final(self).widgets@[h] == old(self).widgets@[h],
            final(self).creates_new_widgets(*old(self)),
    {
        let ghost s0 = *self;
        let ghost skip = set![b as int];
        let n = self.menus[m].entries.len();
        let mut j: usize = 0;
        while j < n
            invariant
                self.creates_new_widgets(s0),
                0 <= j <= n,
                n == self.menus@[m as int].entries@.len(),
                (m as int) < self.menus@.len(),
                (b as int) < s0.widgets@.len(),
                s0.widgets@.len() <= self.widgets@.len(),
                skip == set![b as int],
                s0.tree_ok(),
                self.inv_except(skip),
                self.same_logic(s0),
                self.menus == s0.menus,
                forall|h: int| 0 <= h < s0.widgets@.len() && h != b ==> #[trigger] self.widgets@[h] == s0.widgets@[h],
                self.alive(b as int),
                self.widgets@[b as int].role == (Role::Bar { menu: m }),
                self.widgets@[b as int].children@.len() == j,
                forall|i: int| 0 <= i < j ==> #[trigger] self.child_ok(b as int, i),
            decreases n - j,
        {
            let c = self.menus[m].entries[j];
            let ghost s1 = *self;
            proof {
                reveal(MenuSystem::menu_lists_ok);
                assert(self.menus@[m as int].entries@[j as int] == c);
            }
            let y = self.project(c, b, j, Ghost(skip));
            proof {
                Self::lemma_same_logic_trans(*self, s1, s0);
                assert forall|h: int| s0.widgets@.len() <= h < s1.widgets@.len() implies (#[trigger] self.widgets@[h]).role == s1.widgets@[h].role by {
                    assert(self.widgets@[h] == s1.widgets@[h]);
                }
                Self::lemma_creates_trans(*self, s1, s0);
                assert forall|h: int| 0 <= h < s0.widgets@.len() && h != b implies #[trigger] self.widgets@[h] == s0.widgets@[h] by {
                    assert(s1.widgets@[h] == s0.widgets@[h]);
                    assert(self.widgets@[h] == s1.widgets@[h]);
                }
                assert(self.shown(b as int) == s1.shown(b as int));
                assert forall|i: int| 0 <= i < j + 1 implies #[trigger] self.child_ok(b as int, i) by {
                    if i < j {
                        assert(s1.child_ok(b as int, i));
                        let ch = s1.widgets@[b as int].children@[i] as int;
                        assert(self.widgets@[b as int].children@[i] as int == ch);
                        assert(ch != b as int);
                        assert(self.widgets@[ch] == s1.widgets@[ch]);
                    } else {
                        assert(self.widgets@[b as int].children@[i] == y);
                    }
                }
            }
            j = j + 1;
        }
        proof {
            reveal(MenuSystem::containers_ok_except);
            assert(self.container_ok(b as int));
            assert forall|h: int| #[trigger] self.alive(h) && !Set::<int>::empty().contains(h) implies self.container_ok(h) by {
                if h != b as int {
                    assert(!skip.contains(h));
                }
            }
        }
    }

    /// `i` is the first entry of menu `m`'s bar list for `window`.
    pub open spec fn first_bar(&self, m: int, window: u64, i: int) -> bool {
        &&& 0 <= i < self.menus@[m].bars@.len()
        &&& self.menus@[m].bars@[i].window == window
        &&& forall|j: int| 0 <= j < i ==> #[trigger] self.menus@[m].bars@[j].window != window
    }

    /// The native menu bar of menu `m` in `window`, if it has one.
    pub fn bar_for_window(&self, m: usize, window: u64) -> (r: Option<usize>)
        requires
            (m as int) < self.menus@.len(),
        ensures
            match r {
                Some(b) => exists|i: int| #[trigger] self.first_bar(m as int, window, i) && self.menus@[m as int].bars@[i].bar == b,
                None => forall|i: int| 0 <= i < self.menus@[m as int].bars@.len() ==> #[trigger] self.menus@[m as int].bars@[i].window != window,
            },
    {
        let n = self.menus[m].bars.len();
        let mut i: usize = 0;
        while i < n
            invariant
                0 <= i <= n,
                (m as int) < self.menus@.len(),
                n == self.menus@[m as int].bars@.len(),
                forall|k: int| 0 <= k < i ==> #[trigger] self.menus@[m as int].bars@[k].window != window,
            decreases n - i,
        {
            let wb = self.menus[m].bars[i];
            if wb.window == window {
                proof {
                    assert(self.first_bar(m as int, window, i as int));
                }
                return Some(wb.bar);
            }
            i = i + 1;
        }
        None
    }

    /// Attaches menu `m` to `window` as its menu bar: creates the native bar
    /// and projects the whole menu into it. A window that already has the
    /// bar keeps it.
    pub fn init_for_window(&mut self, m: usize, window: u64) -> (b: usize)
        requires
            old(self).wf(),
            (m as int) < old(self).menus@.len(),
        ensures
            final(self).wf(),
            final(self).same_logic(*old(self)),
            final(self).same_menu_entries(*old(self)),
            final(self).alive(b as int),
            final(self).widgets@[b as int].role == (Role::Bar { menu: m }),
            final(self).container_ok(b as int),
            exists|i: int| 0 <= i < final(self).menus@[m as int].bars@.len() && #[trigger] final(self).menus@[m as int].bars@[i] == (WindowBar { window, bar: b }),
            old(self).widgets@.len() <= final(self).widgets@.len(),
            forall|h: int| 0 <= h < old(self).widgets@.len() ==> #[trigger] final(self).widgets@[h] == old(self).widgets@[h],
            (exists|i: int| 0 <= i < old(self).menus@[m as int].bars@.len() && #[trigger] old(self).menus@[m as int].bars@[i].window == window)
                ==> *final(self) == *old(self) && exists|i: int| #[trigger] old(self).first_bar(m as int, window, i) && old(self).menus@[m as int].bars@[i].bar == b,
            final(self).creates_new_widgets(*old(self)),
    {
        match self.bar_for_window(m, window) {
            Some(b) => {
                proof {
                    reveal(MenuSystem::menus_ok);
                    reveal(MenuSystem::containers_ok_except);
                    let i = choose|i: int| 0 <= i < self.menus@[m as int].bars@.len() && #[trigger] self.menus@[m as int].bars@[i] == (WindowBar { window, bar: b });
                    assert(self.menu_ok(m as int));
                    assert(self.menus@[m as int].bars@[i].bar == b);
                    assert forall|e: int| 0 <= e < self.n_entries() implies same_but_projections(
                        #[trigger] self.entries@[e],
                        self.entries@[e],
                    ) by {}
                }
                b
            },
            None => {
                let ghost s0 = *self;
                let b = self.add_root(m, Some(window));
                let ghost s1 = *self;
                self.fill_root(m, b);
                proof {
                    Self::lemma_creates_trans(*self, s1, s0);
                    assert forall|e: int| 0 <= e < s1.n_entries() implies same_but_projections(
                        #[trigger] s1.entries@[e],
                        s0.entries@[e],
                    ) by {}
                    Self::lemma_same_logic_trans(*self, s1, s0);
                    reveal(MenuSystem::containers_ok_except);
                    let k = s0.menus@[m as int].bars@.len() as int;
                    assert(self.menus@[m as int].bars@[k] == (WindowBar { window, bar: b }));
                }
                b
            },
        }
    }

    /// The `k`-th recorded projection of `e` is a live widget for `e`, whatever
    /// it shows.
    pub open spec fn projection_placed(&self, e: int, k: int) -> bool {
        let pr = self.entries@[e].projections@[k];
        let x = pr.widget as int;
        &&& 0 <= x < self.widgets@.len()
        &&& self.widgets@[x].alive
        &&& self.widgets@[x].role == (Role::Item { entry: e as usize, parent: pr.parent })
    }

    /// Well-formed, except that the widgets of entry `e` may show a stale
    /// state.
    pub open spec fn wf_but_shows(&self, e: int) -> bool {
        &&& self.tree_ok()
        &&& self.widgets_registered()
        &&& self.menus_ok()
        &&& self.containers_ok_except(Set::empty())
        &&& 0 <= e < self.n_entries()
        &&& forall|i: int, k: int|
            0 <= i < self.n_entries() && i != e && 0 <= k < self.entries@[i].projections@.len()
                ==> #[trigger] self.projection_ok(i, k)
        &&& forall|k: int|
            0 <= k < self.entries@[e].projections@.len() ==> #[trigger] self.projection_placed(e, k)
    }

    /// Every live widget of an entry shows the entry's current text, enabled
    /// state and checked state.
    pub proof fn lemma_widget_shows_entry(&self, x: int)
        requires
            self.wf(),
            self.alive(x),
        ensures
            match self.widgets@[x].role {
                Role::Item { entry, .. } => entry < self.entries@.len() && shows(
                    self.widgets@[x],
                    self.entries@[entry as int],
                ),
                Role::Bar { .. } => true,
            },
    {
        reveal(MenuSystem::widgets_registered);
        reveal(MenuSystem::projections_ok);
        assert(x < self.widgets.len());
        assert(self.registered(x));
        match self.widgets@[x].role {
            Role::Item { entry, parent } => {
                let k = choose|k: int|
                    0 <= k < self.entries@[entry as int].projections@.len()
                        && #[trigger] self.entries@[entry as int].projections@[k] == (Projection {
                        parent,
                        widget: x as usize,
                    });
                assert(self.role_ok(x));
                assert(self.projection_ok(entry as int, k));
                assert(self.entries@[entry as int].projections@[k].widget == x as usize);
            },
            _ => {},
        }
    }

    /// A change of entry `e`'s state alone leaves the engine well-formed but
    /// for what `e`'s widgets show.
    proof fn lemma_state_change(&self, old: MenuSystem, e: int)
        requires
            old.wf(),
            0 <= e < old.n_entries(),
            self.widgets == old.widgets,
            self.menus == old.menus,
            self.entries@.len() == old.entries@.len(),
            forall|i: int| 0 <= i < self.n_entries() && i != e ==> #[trigger] self.entries@[i] == old.entries@[i],
            same_structure(self.entries@[e], old.entries@[e]),
            self.entries@[e].projections == old.entries@[e].projections,
            self.rank == old.rank,
            self.rank_bound == old.rank_bound,
            self.ids == old.ids,
        ensures
            self.wf_but_shows(e),
    {
        assert forall|i: int| 0 <= i < self.entries@.len() implies same_structure(
            #[trigger] self.entries@[i],
            old.entries@[i],
        ) by {}
        assert forall|m: int| 0 <= m < self.menus@.len() implies (#[trigger] self.menus@[m]).entries
            == old.menus@[m].entries by {}
        self.lemma_tree_frame(old);
        assert(self.widgets_registered()) by {
            reveal(MenuSystem::widgets_registered);
            assert forall|h: int| #[trigger] self.alive(h) implies self.role_ok(h) && self.registered(h) by {
                assert(old.alive(h));
                match self.widgets@[h].role {
                    Role::Item { entry, parent } => {
                        assert(self.entries@[entry as int].projections == old.entries@[entry as int].projections);
                    },
                    _ => {},
                }
            }
        }
        assert(self.menus_ok()) by {
            reveal(MenuSystem::menus_ok);
            assert forall|m: int| 0 <= m < self.menus@.len() implies #[trigger] self.menu_ok(m) by {
                assert(old.menu_ok(m));
            }
        }
        assert(self.containers_ok_except(Set::empty())) by {
            reveal(MenuSystem::containers_ok_except);
            reveal(MenuSystem::widgets_registered);
            assert forall|h: int| #[trigger] self.alive(h) && !Set::<int>::empty().contains(h) implies self.container_ok(h) by {
                assert(old.alive(h));
                assert(old.container_ok(h));
                assert(old.role_ok(h));
                assert(self.shown(h) == old.shown(h)) by {
                    match self.widgets@[h].role {
                        Role::Item { entry, .. } => {
                            assert(same_structure(self.entries@[entry as int], old.entries@[entry as int]));
                        },
                        _ => {},
                    }
                }
                assert forall|j: int| 0 <= j < self.shown(h).len() implies #[trigger] self.child_ok(h, j) by {
                    assert(old.child_ok(h, j));
                }
            }
        }
        reveal(MenuSystem::projections_ok);
        assert forall|i: int, k: int|
            0 <= i < self.n_entries() && i != e && 0 <= k < self.entries@[i].projections@.len()
                implies #[trigger] self.projection_ok(i, k) by {
            assert(old.projection_ok(i, k));
        }
        assert forall|k: int|
            0 <= k < self.entries@[e].projections@.len() implies #[trigger] self.projection_placed(e, k) by {
            assert(old.projection_ok(e, k));
        }
    }

    /// Pushes entry `e`'s current state to every widget recorded for it, and
    /// queues the native change of `attr` for each.
    #[verifier::spinoff_prover]
    fn refresh(&mut self, e: usize, attr: Attribute)
        requires
            old(self).wf_but_shows(e as int),
        ensures
            final(self).wf(),
            final(self).entries == old(self).entries,
            final(self).menus == old(self).menus,
            final(self).rank == old(self).rank,
            final(self).rank_bound == old(self).rank_bound,
            final(self).ids == old(self).ids,
            final(self).widgets@.len() == old(self).widgets@.len(),
            forall|h: int|
                0 <= h < final(self).widgets@.len() ==> {
                    &&& (#[trigger] final(self).widgets@[h]).role == old(self).widgets@[h].role
                    &&& final(self).widgets@[h].children == old(self).widgets@[h].children
                    &&& final(self).widgets@[h].alive == old(self).widgets@[h].alive
                },
            fanned_out(final(self).ops@, old(self).ops@, attr, old(self).entries@[e as int]),
    {
        let ghost s0 = *self;
        let n = self.entries[e].projections.len();
        let mut k: usize = 0;
        while k < n
            invariant
                0 <= k <= n,
                (e as int) < self.n_entries(),
                n == self.entries@[e as int].projections@.len(),
                self.entries == s0.entries,
                self.menus == s0.menus,
                self.rank == s0.rank,
                self.rank_bound == s0.rank_bound,
                self.ids == s0.ids,
                self.widgets@.len() == s0.widgets@.len(),
                forall|h: int|
                    0 <= h < self.widgets@.len() ==> {
                        &&& (#[trigger] self.widgets@[h]).role == s0.widgets@[h].role
                        &&& self.widgets@[h].children == s0.widgets@[h].children
                        &&& self.widgets@[h].alive == s0.widgets@[h].alive
                    },
                forall|h: int|
                    0 <= h < self.widgets@.len() && (match s0.widgets@[h].role {
                        Role::Item { entry, .. } => entry != e,
                        _ => true,
                    }) ==> #[trigger] self.widgets@[h] == s0.widgets@[h],
                forall|j: int| 0 <= j < k ==> #[trigger] self.projection_ok(e as int, j),
                s0.wf_but_shows(e as int),
                self.ops@.len() == s0.ops@.len() + k,
                forall|i: int| 0 <= i < s0.ops@.len() ==> #[trigger] self.ops@[i] == s0.ops@[i],
                forall|j: int| 0 <= j < k ==> sets_attribute(
                    #[trigger] self.ops@[s0.ops@.len() + j],
                    attr,
                    s0.entries@[e as int].projections@[j].widget,
                    s0.entries@[e as int],
                ),
            decreases n - k,
        {
            let ghost s1 = *self;
            let x = self.entries[e].projections[k].widget;
            proof {
                assert(s0.projection_placed(e as int, k as int));
            }
            let label = to_native(&self.entries[e].text);
            let sensitive = self.entries[e].enabled;
            let active = self.entries[e].kind == ItemKind::Check && self.entries[e].checked;
            self.widgets[x].label = label;
            self.widgets[x].sensitive = sensitive;
            self.widgets[x].active = active;
            match attr {
                Attribute::Text => {
                    let op_label = to_native(&self.entries[e].text);
                    self.ops.push(NativeOp::SetLabel { handle: x, label: op_label });
                },
                Attribute::Enabled => {
                    self.ops.push(NativeOp::SetSensitive { handle: x, value: sensitive });
                },
                Attribute::Checked => {
                    self.ops.push(NativeOp::SetActive { handle: x, value: active });
                },
            }
            proof {
                assert forall|j: int| 0 <= j < k + 1 implies sets_attribute(
                    #[trigger] self.ops@[s0.ops@.len() + j],
                    attr,
                    s0.entries@[e as int].projections@[j].widget,
                    s0.entries@[e as int],
                ) by {
                    if j < k {
                        assert(self.ops@[s0.ops@.len() + j] == s1.ops@[s0.ops@.len() + j]);
                    }
                }
                assert forall|i: int| 0 <= i < s0.ops@.len() implies #[trigger] self.ops@[i] == s0.ops@[i] by {
                    assert(self.ops@[i] == s1.ops@[i]);
                }
                assert forall|j: int| 0 <= j < k + 1 implies #[trigger] self.projection_ok(e as int, j) by {
                    if j < k {
                        assert(s1.projection_ok(e as int, j));
                        let y = self.entries@[e as int].projections@[j].widget as int;
                        if y != x as int {
                            assert(self.widgets@[y] == s1.widgets@[y]);
                        }
                    }
                }
            }
            k = k + 1;
        }
        proof {
            assert forall|i: int| 0 <= i < self.entries@.len() implies same_structure(
                #[trigger] self.entries@[i],
                s0.entries@[i],
            ) by {}
            assert forall|m: int| 0 <= m < self.menus@.len() implies (#[trigger] self.menus@[m]).entries
                == s0.menus@[m].entries by {}
            self.lemma_tree_frame(s0);
            assert(self.widgets_registered()) by {
                reveal(MenuSystem::widgets_registered);
                assert forall|h: int| #[trigger] self.alive(h) implies self.role_ok(h) && self.registered(h) by {
                    assert(s0.alive(h));
                }
            }
            assert(self.menus_ok()) by {
                reveal(MenuSystem::menus_ok);
                assert forall|m: int| 0 <= m < self.menus@.len() implies #[trigger] self.menu_ok(m) by {
                    assert(s0.menu_ok(m));
                    let md = self.menus@[m];
                    assert forall|b: int| 0 <= b < md.bars@.len() implies {
                        let h = (#[trigger] md.bars@[b]).bar as int;
                        self.alive(h) && self.widgets@[h].role == (Role::Bar { menu: m as usize })
                    } by {
                        let h = md.bars@[b].bar as int;
                        assert(self.widgets@[h].role == s0.widgets@[h].role);
                    }
                    match md.context {
                        Some(c) => {
                            assert(self.widgets@[c as int].role == s0.widgets@[c as int].role);
                        },
                        None => {},
                    }
                }
            }
            assert(self.containers_ok_except(Set::empty())) by {
                reveal(MenuSystem::containers_ok_except);
                assert forall|h: int| #[trigger] self.alive(h) && !Set::<int>::empty().contains(h) implies self.container_ok(h) by {
                    assert(s0.alive(h));
                    assert(s0.container_ok(h));
                    assert(self.shown(h) == s0.shown(h));
                    assert forall|j: int| 0 <= j < self.shown(h).len() implies #[trigger] self.child_ok(h, j) by {
                        assert(s0.child_ok(h, j));
                        let c = self.widgets@[h].children@[j] as int;
                        assert(self.widgets@[c].role == s0.widgets@[c].role);
                    }
                }
            }
            assert(self.projections_ok()) by {
                reveal(MenuSystem::projections_ok);
                assert forall|i: int, j: int|
                    0 <= i < self.n_entries() && 0 <= j < self.entries@[i].projections@.len()
                        implies #[trigger] self.projection_ok(i, j) by {
                    if i != e as int {
                        assert(s0.projection_ok(i, j));
                        let y = self.entries@[i].projections@[j].widget as int;
                        assert(s0.widgets@[y].role == (Role::Item { entry: i as usize, parent: self.entries@[i].projections@[j].parent }));
                        assert(i < self.entries.len());
                        assert(i as usize != e);
                        assert(match s0.widgets@[y].role {
                            Role::Item { entry, .. } => entry != e,
                            _ => true,
                        });
                        assert(self.widgets@[y] == s0.widgets@[y]);
                    }
                }
            }
        }
    }

    /// Sets the text of entry `e`, and the label of every native widget
    /// that shows it.
    pub fn set_text(&mut self, e: usize, text: Vec<char>)
        requires
            old(self).wf(),
            (e as int) < old(self).n_entries(),
        ensures
            final(self).wf(),
            final(self).entries@.len() == old(self).entries@.len(),
            forall|i: int| 0 <= i < final(self).n_entries() && i != e ==> #[trigger] final(self).entries@[i] == old(self).entries@[i],
            same_structure(final(self).entries@[e as int], old(self).entries@[e as int]),
            final(self).entries@[e as int].projections == old(self).entries@[e as int].projections,
            final(self).entries@[e as int].accelerator == old(self).entries@[e as int].accelerator,
            final(self).entries@[e as int].text@ == text@,
            final(self).entries@[e as int].enabled == old(self).entries@[e as int].enabled,
            final(self).entries@[e as int].checked == old(self).entries@[e as int].checked,
            final(self).entries@[e as int].syncing == old(self).entries@[e as int].syncing,
            final(self).menus == old(self).menus,
            final(self).widgets@.len() == old(self).widgets@.len(),
            forall|h: int|
                0 <= h < final(self).widgets@.len() ==> {
                    &&& (#[trigger] final(self).widgets@[h]).role == old(self).widgets@[h].role
                    &&& final(self).widgets@[h].children == old(self).widgets@[h].children
                    &&& final(self).widgets@[h].alive == old(self).widgets@[h].alive
                },
            forall|h: int|
                #[trigger] final(self).alive(h) && final(self).widgets@[h].role is Item
                    && final(self).widgets@[h].role->entry == e ==> shows(
                    final(self).widgets@[h],
                    final(self).entries@[e as int],
                ),
            fanned_out(final(self).ops@, old(self).ops@, Attribute::Text, final(self).entries@[e as int]),
    {
        let ghost s0 = *self;
        self.entries[e].text = text;
        proof {
            self.lemma_state_change(s0, e as int);
        }
        self.refresh(e, Attribute::Text);
        proof {
            assert forall|h: int|
                #[trigger] self.alive(h) && self.widgets@[h].role is Item
                    && self.widgets@[h].role->entry == e implies shows(
                    self.widgets@[h],
                    self.entries@[e as int],
                ) by {
                self.lemma_widget_shows_entry(h);
            }
        }
    }

    /// Enables or disables entry `e` and every native widget that shows it.
    pub fn set_enabled(&mut self, e: usize, enabled: bool)
        requires
            old(self).wf(),
            (e as int) < old(self).n_entries(),
        ensures
            final(self).wf(),
            final(self).entries@.len() == old(self).entries@.len(),
            forall|i: int| 0 <= i < final(self).n_entries() && i != e ==> #[trigger] final(self).entries@[i] == old(self).entries@[i],
            same_structure(final(self).entries@[e as int], old(self).entries@[e as int]),
            final(self).entries@[e as int].projections == old(self).entries@[e as int].projections,
            final(self).entries@[e as int].accelerator == old(self).entries@[e as int].accelerator,
            final(self).entries@[e as int].text == old(self).entries@[e as int].text,
            final(self).entries@[e as int].enabled == enabled,
            final(self).entries@[e as int].checked == old(self).entries@[e as int].checked,
            final(self).entries@[e as int].syncing == old(self).entries@[e as int].syncing,
            final(self).menus == old(self).menus,
            final(self).widgets@.len() == old(self).widgets@.len(),
            forall|h: int|
                0 <= h < final(self).widgets@.len() ==> {
                    &&& (#[trigger] final(self).widgets@[h]).role == old(self).widgets@[h].role
                    &&& final(self).widgets@[h].children == old(self).widgets@[h].children
                    &&& final(self).widgets@[h].alive == old(self).widgets@[h].alive
                },
            forall|h: int|
                #[trigger] final(self).alive(h) && final(self).widgets@[h].role is Item
                    && final(self).widgets@[h].role->entry == e ==> shows(
                    final(self).widgets@[h],
                    final(self).entries@[e as int],
                ),
            fanned_out(final(self).ops@, old(self).ops@, Attribute::Enabled, final(self).entries@[e as int]),
    {
        let ghost s0 = *self;
        self.entries[e].enabled = enabled;
        proof {
            self.lemma_state_change(s0, e as int);
        }
        self.refresh(e, Attribute::Enabled);
        proof {
            assert forall|h: int|
                #[trigger] self.alive(h) && self.widgets@[h].role is Item
                    && self.widgets@[h].role->entry == e implies shows(
                    self.widgets@[h],
                    self.entries@[e as int],
                ) by {
                self.lemma_widget_shows_entry(h);
            }
        }
    }

    /// Sets the checked state of entry `e` and of every native widget that
    /// shows it. The native notifications that this causes carry the value
    /// the entry already has, so they are not reported as user toggles.
    pub fn set_checked(&mut self, e: usize, checked: bool)
        requires
            old(self).wf(),
            (e as int) < old(self).n_entries(),
        ensures
            final(self).wf(),
            final(self).entries@.len() == old(self).entries@.len(),
            forall|i: int| 0 <= i < final(self).n_entries() && i != e ==> #[trigger] final(self).entries@[i] == old(self).entries@[i],
            same_structure(final(self).entries@[e as int], old(self).entries@[e as int]),
            final(self).entries@[e as int].projections == old(self).entries@[e as int].projections,
            final(self).entries@[e as int].accelerator == old(self).entries@[e as int].accelerator,
            final(self).entries@[e as int].text == old(self).entries@[e as int].text,
            final(self).entries@[e as int].enabled == old(self).entries@[e as int].enabled,
            final(self).entries@[e as int].checked == checked,
            final(self).entries@[e as int].syncing == old(self).entries@[e as int].syncing,
            final(self).menus == old(self).menus,
            final(self).widgets@.len() == old(self).widgets@.len(),
            forall|h: int|
                0 <= h < final(self).widgets@.len() ==> {
                    &&& (#[trigger] final(self).widgets@[h]).role == old(self).widgets@[h].role
                    &&& final(self).widgets@[h].children == old(self).widgets@[h].children
                    &&& final(self).widgets@[h].alive == old(self).widgets@[h].alive
                },
            forall|h: int|
                #[trigger] final(self).alive(h) && final(self).widgets@[h].role is Item
                    && final(self).widgets@[h].role->entry == e ==> shows(
                    final(self).widgets@[h],
                    final(self).entries@[e as int],
                ),
            fanned_out(final(self).ops@, old(self).ops@, Attribute::Checked, final(self).entries@[e as int]),
    {
        let ghost s0 = *self;
        self.entries[e].checked = checked;
        proof {
            self.lemma_state_change(s0, e as int);
        }
        self.refresh(e, Attribute::Checked);
        proof {
            assert forall|h: int|
                #[trigger] self.alive(h) && self.widgets@[h].role is Item
                    && self.widgets@[h].role->entry == e implies shows(
                    self.widgets@[h],
                    self.entries@[e as int],
                ) by {
                self.lemma_widget_shows_entry(h);
            }
        }
    }

    /// The container `t` mirrors its logical children but for the child at
    /// `pos`, which has no widget yet.
    pub open spec fn almost_ok(&self, t: int, pos: int) -> bool {
        let ch = self.widgets@[t].children@;
        &&& ch.len() + 1 == self.shown(t).len()
        &&& 0 <= pos < self.shown(t).len()
        &&& forall|j: int|
            0 <= j < ch.len() ==> {
                let x = #[trigger] ch[j] as int;
                &&& 0 <= x < self.widgets@.len()
                &&& self.widgets@[x].alive
                &&& self.widgets@[x].role == (Role::Item {
                    entry: self.shown(t)[if j < pos {
                        j
                    } else {
                        j + 1
                    }],
                    parent: t as usize,
                })
            }
    }

    /// Projects entry `item`, just placed at `pos` in a logical list, into
    /// every native container in `targets` that lacks it.
    #[verifier::spinoff_prover]
    fn project_into_all(&mut self, item: usize, pos: usize, targets: &Vec<usize>)
        requires
            old(self).inv_except(Set::new(|h: int| (exists|i: int| 0 <= i < targets@.len() && targets@[i] as int == h))),
            old(self).widgets_registered(),
            (item as int) < old(self).n_entries(),
            forall|k: int|
                0 <= k < targets@.len() ==> {
                    let t = #[trigger] targets@[k] as int;
                    &&& old(self).alive(t)
                    &&& (old(self).container_ok(t) || (old(self).almost_ok(t, pos as int)
                        && old(self).shown(t)[pos as int] == item))
                },
        ensures
            final(self).wf(),
            final(self).same_logic(*old(self)),
            final(self).menus == old(self).menus,
            final(self).projections_grew(*old(self)),
            old(self).widgets@.len() <= final(self).widgets@.len(),
            targets@.len() == 0 ==> *final(self) == *old(self),
            final(self).creates_new_widgets(*old(self)),
    {
        let ghost s0 = *self;
        let n = targets.len();
        let mut k: usize = 0;
        proof {
            assert forall|e: int| 0 <= e < self.entries@.len() implies self.entries@[e].projections@.subrange(0, self.entries@[e].projections@.len() as int) == (#[trigger] self.entries@[e]).projections@ by {
                assert(self.entries@[e].projections@.subrange(0, self.entries@[e].projections@.len() as int) =~= self.entries@[e].projections@);
            }
            assert forall|e: int| 0 <= e < self.entries@.len() implies same_but_projections(#[trigger] self.entries@[e], self.entries@[e]) by {}
        }
        while k < n
            invariant
                self.creates_new_widgets(s0),
                n == 0 ==> *self == s0,
                0 <= k <= n,
                n == targets@.len(),
                (item as int) < self.n_entries(),
                s0.widgets@.len() <= self.widgets@.len(),
                self.inv_except(Set::new(|h: int| (exists|i: int| k <= i < n && targets@[i] as int == h))),
                self.same_logic(s0),
                self.menus == s0.menus,
                self.projections_grew(s0),
                forall|i: int|
                    0 <= i < n ==> {
                        let t = #[trigger] targets@[i] as int;
                        &&& self.alive(t)
                        &&& (self.container_ok(t) || (self.almost_ok(t, pos as int)
                            && self.shown(t)[pos as int] == item))
                    },
            decreases n - k,
        {
            let t = targets[k];
            let ghost skip = Set::new(|h: int| (exists|i: int| k <= i < n && targets@[i] as int == h));
            let ghost skip2 = Set::new(|h: int| (exists|i: int| k + 1 <= i < n && targets@[i] as int == h));
            let ghost s1 = *self;
            let want = self.shown_len(t);
            if self.widgets[t].children.len() < want {
                proof {
                    assert(skip.contains(t as int));
                    assert(!self.container_ok(t as int));
                }
                let x = self.project(item, t, pos, Ghost(skip));
                proof {
                    Self::lemma_same_logic_trans(*self, s1, s0);
                    assert forall|h: int| s0.widgets@.len() <= h < s1.widgets@.len() implies (#[trigger] self.widgets@[h]).role == s1.widgets@[h].role by {
                        if h != t as int {
                            assert(self.widgets@[h] == s1.widgets@[h]);
                        }
                    }
                    Self::lemma_creates_trans(*self, s1, s0);
                    Self::lemma_grew_trans(*self, s1, s0);
                    self.lemma_after_insert(s1, t as int, pos as int, x as int, item);
                    self.lemma_targets_frame(s1, targets@, t as int, pos as int, item);
                    self.lemma_skip_shrink(targets@, k as int, t as int);
                }
            } else {
                proof {
                    assert(self.container_ok(t as int));
                    self.lemma_skip_shrink(targets@, k as int, t as int);
                }
            }
            k = k + 1;
        }
        proof {
            reveal(MenuSystem::containers_ok_except);
            assert forall|h: int| #[trigger] self.alive(h) && !Set::<int>::empty().contains(h) implies self.container_ok(h) by {
                if (exists|i: int| n <= i < n && targets@[i] as int == h) {
                }
            }
        }
    }

    /// The number of logical children that the container `t` mirrors.
    fn shown_len(&self, t: usize) -> (r: usize)
        requires
            self.wf_roles(),
            self.alive(t as int),
        ensures
            r == self.shown(t as int).len(),
    {
        proof {
            reveal(MenuSystem::widgets_registered);
        }
        match self.widgets[t].role {
            Role::Bar { menu } => self.menus[menu].entries.len(),
            Role::Item { entry, .. } => self.entries[entry].children.len(),
        }
    }

    pub open spec fn wf_roles(&self) -> bool {
        self.widgets_registered()
    }

    proof fn lemma_after_insert(&self, s1: MenuSystem, t: int, pos: int, x: int, item: usize)
        requires
            s1.widgets_registered(),
            s1.alive(t),
            s1.almost_ok(t, pos),
            s1.shown(t)[pos] == item,
            0 <= t < s1.widgets@.len(),
            s1.widgets@.len() <= self.widgets@.len(),
            self.same_logic(s1),
            self.menus == s1.menus,
            same_but_children(self.widgets@[t], s1.widgets@[t]),
            self.widgets@[t].children@ == s1.widgets@[t].children@.insert(pos, x as usize),
            self.widgets_unchanged_below(s1, s1.widgets@.len() as int, t),
            self.alive(x),
            self.widgets@[x].role == (Role::Item { entry: item, parent: t as usize }),
        ensures
            self.container_ok(t),
    {
        reveal(MenuSystem::widgets_registered);
        assert(s1.role_ok(t));
        assert(self.shown(t) == s1.shown(t)) by {
            match self.widgets@[t].role {
                Role::Item { entry, .. } => {
                    assert(same_but_projections(self.entries@[entry as int], s1.entries@[entry as int]));
                },
                _ => {},
            }
        }
        let ch = s1.widgets@[t].children@;
        assert(self.widgets@[t].children@.len() == self.shown(t).len());
        assert forall|j: int| 0 <= j < self.shown(t).len() implies #[trigger] self.child_ok(t, j) by {
            if j < pos {
                let c = ch[j] as int;
                assert(self.widgets@[t].children@[j] == ch[j]);
                assert(s1.widgets@[c].role == (Role::Item { entry: s1.shown(t)[j], parent: t as usize }));
                assert(c != t);
                assert(self.widgets@[c] == s1.widgets@[c]);
                assert(self.child_ok(t, j));
            } else if j == pos {
                assert(self.widgets@[t].children@[j] == x as usize);
                assert(x < self.widgets.len());
                assert(self.shown(t)[pos] == item);
                assert(self.child_ok(t, j));
            } else {
                let c = ch[j - 1] as int;
                assert(self.widgets@[t].children@[j] == ch[j - 1]);
                assert(s1.widgets@[c].role == (Role::Item { entry: s1.shown(t)[j], parent: t as usize }));
                assert(c != t);
                assert(self.widgets@[c] == s1.widgets@[c]);
                assert(self.child_ok(t, j));
            }
        }
    }

    proof fn lemma_targets_frame(&self, s1: MenuSystem, targets: Seq<usize>, t: int, pos: int, item: usize)
        requires
            s1.widgets_registered(),
            forall|i: int|
                0 <= i < targets.len() ==> {
                    let u = #[trigger] targets[i] as int;
                    &&& s1.alive(u)
                    &&& (s1.container_ok(u) || (s1.almost_ok(u, pos) && s1.shown(u)[pos] == item))
                },
            self.container_ok(t),
            self.alive(t),
            0 <= t < s1.widgets@.len(),
            s1.widgets@.len() <= self.widgets@.len(),
            self.same_logic(s1),
            self.menus == s1.menus,
            same_but_children(self.widgets@[t], s1.widgets@[t]),
            self.widgets_unchanged_below(s1, s1.widgets@.len() as int, t),
        ensures
            forall|i: int|
                0 <= i < targets.len() ==> {
                    let u = #[trigger] targets[i] as int;
                    &&& self.alive(u)
                    &&& (self.container_ok(u) || (self.almost_ok(u, pos) && self.shown(u)[pos]
                        == item))
                },
    {
        assert forall|i: int|
            0 <= i < targets.len() implies {
                let u = #[trigger] targets[i] as int;
                &&& self.alive(u)
                &&& (self.container_ok(u) || (self.almost_ok(u, pos) && self.shown(u)[pos] == item))
            } by {
            let u = targets[i] as int;
            reveal(MenuSystem::widgets_registered);
            assert(s1.role_ok(u));
            if u != t {
                assert(self.widgets@[u] == s1.widgets@[u]);
                assert(self.shown(u) == s1.shown(u)) by {
                    match self.widgets@[u].role {
                        Role::Item { entry, .. } => {
                            assert(same_but_projections(self.entries@[entry as int], s1.entries@[entry as int]));
                        },
                        _ => {},
                    }
                }
                let ch = self.widgets@[u].children@;
                if s1.container_ok(u) {
                    assert forall|j: int| 0 <= j < self.shown(u).len() implies #[trigger] self.child_ok(u, j) by {
                        assert(s1.child_ok(u, j));
                        let c = ch[j] as int;
                        assert(same_but_children(self.widgets@[c], s1.widgets@[c]) || c == t);
                        if c != t {
                            assert(self.widgets@[c] == s1.widgets@[c]);
                        }
                    }
                } else {
                    assert forall|j: int| 0 <= j < ch.len() implies {
                        let x = #[trigger] ch[j] as int;
                        &&& 0 <= x < self.widgets@.len()
                        &&& self.widgets@[x].alive
                        &&& self.widgets@[x].role == (Role::Item {
                            entry: self.shown(u)[if j < pos {
                                j
                            } else {
                                j + 1
                            }],
                            parent: u as usize,
                        })
                    } by {
                        let c = ch[j] as int;
                        if c != t {
                            assert(self.widgets@[c] == s1.widgets@[c]);
                        }
                    }
                }
            }
        }
    }

    proof fn lemma_skip_shrink(&self, targets: Seq<usize>, k: int, t: int)
        requires
            0 <= k < targets.len(),
            targets[k] as int == t,
            self.inv_except(Set::new(|h: int| (exists|i: int| k <= i < targets.len() && targets[i] as int == h))),
            self.alive(t) ==> self.container_ok(t),
        ensures
            self.inv_except(Set::new(|h: int| (exists|i: int| k + 1 <= i < targets.len() && targets[i] as int == h))),
    {
        reveal(MenuSystem::containers_ok_except);
        let skip = Set::new(|h: int| (exists|i: int| k <= i < targets.len() && targets[i] as int == h));
        let skip2 = Set::new(|h: int| (exists|i: int| k + 1 <= i < targets.len() && targets[i] as int == h));
        assert forall|h: int| #[trigger] self.alive(h) && !skip2.contains(h) implies self.container_ok(h) by {
            if h != t {
                if skip.contains(h) {
                    let i = choose|i: int| k <= i < targets.len() && targets[i] as int == h;
                    assert(i != k);
                    assert(skip2.contains(h));
                }
            }
        }
    }

    /// Walking up from `x` through the submenus that own it, at most `fuel`
    /// steps, reaches `a`.
    pub open spec fn ancestor_within(&self, a: int, x: int, fuel: nat) -> bool
        decreases fuel,
    {
        x == a || (fuel > 0 && 0 <= x < self.n_entries() && match self.entries@[x].owner {
            Owner::InSubmenu(p) => self.ancestor_within(a, p as int, (fuel - 1) as nat),
            _ => false,
        })
    }

    /// `a` is `x` or a submenu that `x` stands in, directly or not.
    pub open spec fn is_ancestor(&self, a: int, x: int) -> bool {
        exists|fuel: nat| self.ancestor_within(a, x, fuel)
    }

    proof fn lemma_ancestor_mono(&self, a: int, x: int, fuel: nat)
        requires
            self.ancestor_within(a, x, fuel),
        ensures
            self.ancestor_within(a, x, fuel + 1),
        decreases fuel,
    {
        if x != a {
            match self.entries@[x].owner {
                Owner::InSubmenu(p) => {
                    self.lemma_ancestor_mono(a, p as int, (fuel - 1) as nat);
                },
                _ => {},
            }
        }
    }

    proof fn lemma_parent_rank(&self, c: int, p: usize)
        requires
            self.tree_ok(),
            0 <= c < self.n_entries(),
            self.entries@[c].owner == Owner::InSubmenu(p),
        ensures
            (p as int) < self.n_entries(),
            self.rank@[c] < self.rank@[p as int],
            self.rank@[p as int] < self.rank_bound@,
    {
        assert(self.entries@[p as int].children@.contains(c as usize) && (p as int) < self.n_entries()) by {
            reveal(MenuSystem::owners_ok);
            assert(self.entries@[c].owner == Owner::InSubmenu(p));
        }
        let j = choose|j: int| 0 <= j < self.entries@[p as int].children@.len() && self.entries@[p as int].children@[j] == c as usize;
        self.lemma_child(p as int, j);
        assert(c < self.entries.len());
        assert(self.rank@[p as int] < self.rank_bound@) by {
            reveal(MenuSystem::ranks_ok);
        }
    }

    proof fn lemma_ancestor_mono_to(&self, a: int, x: int, f: nat, g: nat)
        requires
            self.ancestor_within(a, x, f),
            f <= g,
        ensures
            self.ancestor_within(a, x, g),
        decreases g - f,
    {
        if f < g {
            self.lemma_ancestor_mono(a, x, f);
            self.lemma_ancestor_mono_to(a, x, f + 1, g);
        }
    }

    proof fn lemma_ancestor_extend(&self, v: int, s: int, i: nat, p: usize)
        requires
            self.ancestor_within(v, s, i),
            0 <= v < self.n_entries(),
            self.entries@[v].owner == Owner::InSubmenu(p),
        ensures
            self.ancestor_within(p as int, s, i + 1),
        decreases i,
    {
        if s == v {
            assert(self.ancestor_within(p as int, p as int, 0));
            assert(self.ancestor_within(p as int, s, 1));
            self.lemma_ancestor_mono_to(p as int, s, 1, i + 1);
        } else {
            match self.entries@[s].owner {
                Owner::InSubmenu(q) => {
                    self.lemma_ancestor_extend(v, q as int, (i - 1) as nat, p);
                },
                _ => {},
            }
        }
    }

    proof fn lemma_not_ancestor(&self, item: int, x: int, fuel: nat, visited: Set<int>, cur: int)
        requires
            visited.contains(x),
            !visited.contains(item),
            forall|v: int| #[trigger] visited.contains(v) ==> 0 <= v < self.n_entries(),
            forall|v: int|
                #[trigger] visited.contains(v) && v != cur ==> match self.entries@[v].owner {
                    Owner::InSubmenu(p) => visited.contains(p as int),
                    _ => false,
                },
            !(self.entries@[cur].owner is InSubmenu),
        ensures
            !self.ancestor_within(item, x, fuel),
        decreases fuel,
    {
        if fuel > 0 {
            match self.entries@[x].owner {
                Owner::InSubmenu(p) => {
                    assert(x != cur);
                    self.lemma_not_ancestor(item, p as int, (fuel - 1) as nat, visited, cur);
                },
                _ => {},
            }
        }
    }

    /// Walks up from submenu `s` and tells whether `item` is `s` or one of
    /// its ancestors. When it is not, the ranks are raised along the walk so
    /// that `item` can become a child of `s`.
    fn check_nesting(&mut self, s: usize, item: usize) -> (nested: bool)
        requires
            old(self).wf(),
            (s as int) < old(self).n_entries(),
            (item as int) < old(self).n_entries(),
            old(self).entries@[item as int].owner == Owner::Detached,
        ensures
            nested == old(self).is_ancestor(item as int, s as int),
            final(self).entries == old(self).entries,
            final(self).menus == old(self).menus,
            final(self).widgets == old(self).widgets,
            final(self).ops == old(self).ops,
            final(self).ids == old(self).ids,
            final(self).rank@.len() == old(self).rank@.len(),
            nested ==> final(self).rank == old(self).rank && final(self).rank_bound == old(self).rank_bound,
            !nested ==> final(self).rank@[item as int] < final(self).rank@[s as int],
            final(self).wf(),
    {
        let ghost s0 = *self;
        proof {
            reveal(MenuSystem::ranks_ok);
        }
        let mut cur: usize = s;
        let mut found: bool = s == item;
        let mut going: bool = true;
        let ghost mut visited: Set<int> = set![s as int];
        let ghost mut steps: nat = 0;
        while going
            invariant
                *self == s0,
                s0.wf(),
                0 <= cur < self.n_entries(),
                (s as int) < self.n_entries(),
                (item as int) < self.n_entries(),
                visited.contains(cur as int),
                visited.contains(s as int),
                self.rank@[cur as int] < self.rank_bound@,
                forall|v: int| #[trigger] visited.contains(v) ==> 0 <= v < self.n_entries() && self.ancestor_within(v, s as int, steps),
                forall|v: int|
                    #[trigger] visited.contains(v) && v != cur ==> match self.entries@[v].owner {
                        Owner::InSubmenu(p) => visited.contains(p as int),
                        _ => false,
                    },
                !going ==> !(self.entries@[cur as int].owner is InSubmenu),
                found == visited.contains(item as int),
            decreases self.rank_bound@ - self.rank@[cur as int] + (if going { 1int } else { 0int }),
        {
            match self.entries[cur].owner {
                Owner::InSubmenu(p) => {
                    proof {
                        self.lemma_parent_rank(cur as int, p);
                        assert forall|v: int| #[trigger] visited.contains(v) implies self.ancestor_within(v, s as int, steps + 1) by {
                            self.lemma_ancestor_mono(v, s as int, steps);
                        }
                        self.lemma_ancestor_extend(cur as int, s as int, steps, p);
                        visited = visited.insert(p as int);
                        steps = steps + 1;
                    }
                    found = found || p == item;
                    cur = p;
                },
                _ => {
                    going = false;
                },
            }
        }
        if found {
            proof {
                assert(self.ancestor_within(item as int, s as int, steps));
                self.lemma_rank_frame(s0);
            }
            return true;
        }
        proof {
            reveal(MenuSystem::ranks_ok);
            reveal(MenuSystem::children_ok);
            assert forall|fuel: nat| !self.ancestor_within(item as int, s as int, fuel) by {
                self.lemma_not_ancestor(item as int, s as int, fuel, visited, cur as int);
            }
            let r = s0.rank@;
            let d: nat = if r[item as int] + 1 > r[s as int] { (r[item as int] + 1 - r[s as int]) as nat } else { 0 };
            let nr = Seq::new(r.len(), |x: int| if visited.contains(x) { r[x] + d } else { r[x] });
            assert(!visited.contains(item as int));
            let n = s0.n_entries();
            assert forall|e: int, j: int|
                0 <= e < n && 0 <= j < s0.entries@[e].children@.len() implies {
                    let c = #[trigger] s0.entries@[e].children@[j] as int;
                    &&& 0 <= c < n
                    &&& s0.entries@[c].owner == Owner::InSubmenu(e as usize)
                    &&& nr[c] < nr[e]
                } by {
                let c = s0.entries@[e].children@[j] as int;
                assert(s0.rank@[c] < s0.rank@[e]);
                assert(s0.entries@[c].owner == Owner::InSubmenu(e as usize));
                if visited.contains(c) {
                    assert(c != cur as int);
                    assert(e < s0.entries.len());
                    assert(visited.contains(e));
                }
            }
            assert forall|e: int| 0 <= e < n implies #[trigger] nr[e] < s0.rank_bound@ + d by {}
            self.rank = Ghost(nr);
            self.rank_bound = Ghost(s0.rank_bound@ + d);
            self.lemma_rank_frame(s0);
        }
        false
    }

    #[verifier::spinoff_prover]
    proof fn lemma_rank_frame(&self, old: MenuSystem)
        requires
            old.wf(),
            self.entries == old.entries,
            self.menus == old.menus,
            self.widgets == old.widgets,
            self.ids == old.ids,
            self.rank@.len() == old.rank@.len(),
            self.ranks_ok() || (self.rank == old.rank && self.rank_bound == old.rank_bound),
            self.children_ok() || (self.rank == old.rank && self.rank_bound == old.rank_bound),
        ensures
            self.wf(),
    {
        if self.rank == old.rank && self.rank_bound == old.rank_bound {
            assert(self.ranks_ok()) by {
                reveal(MenuSystem::ranks_ok);
            }
            assert(self.children_ok()) by {
                reveal(MenuSystem::children_ok);
            }
        }
        assert(self.owners_ok()) by {
            reveal(MenuSystem::owners_ok);
        }
        assert(self.menu_lists_ok()) by {
            reveal(MenuSystem::menu_lists_ok);
        }
        assert(self.ids_ok()) by {
            reveal(MenuSystem::ids_ok);
        }
        assert(self.widgets_registered()) by {
            reveal(MenuSystem::widgets_registered);
            assert forall|h: int| #[trigger] self.alive(h) implies self.role_ok(h) && self.registered(h) by {
                assert(old.alive(h));
            }
        }
        assert(self.projections_ok()) by {
            reveal(MenuSystem::projections_ok);
            assert forall|e: int, k: int|
                0 <= e < self.n_entries() && 0 <= k < self.entries@[e].projections@.len()
                    implies #[trigger] self.projection_ok(e, k) by {
                assert(old.projection_ok(e, k));
            }
        }
        assert(self.menus_ok()) by {
            reveal(MenuSystem::menus_ok);
            assert forall|m: int| 0 <= m < self.menus@.len() implies #[trigger] self.menu_ok(m) by {
                assert(old.menu_ok(m));
            }
        }
        assert(self.containers_ok_except(Set::empty())) by {
            reveal(MenuSystem::containers_ok_except);
            assert forall|h: int| #[trigger] self.alive(h) && !Set::<int>::empty().contains(h) implies self.container_ok(h) by {
                assert(old.alive(h));
                assert(old.container_ok(h));
                assert forall|j: int| 0 <= j < self.shown(h).len() implies #[trigger] self.child_ok(h, j) by {
                    assert(old.child_ok(h, j));
                }
            }
        }
    }

    /// The native containers of entry `s`, one per recorded projection.
    fn containers_of(&self, s: usize) -> (r: Vec<usize>)
        requires
            (s as int) < self.n_entries(),
        ensures
            r@.len() == self.entries@[s as int].projections@.len(),
            forall|k: int| 0 <= k < r@.len() ==> #[trigger] r@[k] == self.entries@[s as int].projections@[k].widget,
    {
        let n = self.entries[s].projections.len();
        let mut r: Vec<usize> = Vec::new();
        let mut k: usize = 0;
        while k < n
            invariant
                0 <= k <= n,
                (s as int) < self.n_entries(),
                n == self.entries@[s as int].projections@.len(),
                r@.len() == k,
                forall|i: int| 0 <= i < k ==> #[trigger] r@[i] == self.entries@[s as int].projections@[i].widget,
            decreases n - k,
        {
            r.push(self.entries[s].projections[k].widget);
            k = k + 1;
        }
        r
    }

    /// `self` is `old` with `item` linked in as the child of submenu `s` at
    /// `pos`, nothing else changed.
    pub open spec fn linked_child(&self, old: MenuSystem, s: int, item: int, pos: int) -> bool {
        &&& 0 <= s < old.n_entries()
        &&& 0 <= item < old.n_entries()
        &&& s != item
        &&& old.entries@[s].kind == ItemKind::Submenu
        &&& old.entries@[item].owner == Owner::Detached
        &&& old.rank@[item] < old.rank@[s]
        &&& 0 <= pos <= old.entries@[s].children@.len()
        &&& self.entries@.len() == old.entries@.len()
        &&& forall|e: int| 0 <= e < self.n_entries() && e != s && e != item ==> #[trigger] self.entries@[e] == old.entries@[e]
        &&& self.entries@[s].children@ == old.entries@[s].children@.insert(pos, item as usize)
        &&& self.entries@[s].id == old.entries@[s].id
        &&& self.entries@[s].kind == old.entries@[s].kind
        &&& self.entries@[s].owner == old.entries@[s].owner
        &&& self.entries@[s].text == old.entries@[s].text
        &&& self.entries@[s].enabled == old.entries@[s].enabled
        &&& self.entries@[s].checked == old.entries@[s].checked
        &&& self.entries@[s].projections == old.entries@[s].projections
        &&& self.entries@[item].owner == Owner::InSubmenu(s as usize)
        &&& self.entries@[item].id == old.entries@[item].id
        &&& self.entries@[item].kind == old.entries@[item].kind
        &&& self.entries@[item].children == old.entries@[item].children
        &&& self.entries@[item].text == old.entries@[item].text
        &&& self.entries@[item].enabled == old.entries@[item].enabled
        &&& self.entries@[item].checked == old.entries@[item].checked
        &&& self.entries@[item].projections == old.entries@[item].projections
        &&& self.menus == old.menus
        &&& self.widgets == old.widgets
        &&& self.ids == old.ids
        &&& self.rank == old.rank
        &&& self.rank_bound == old.rank_bound
    }

    #[verifier::spinoff_prover]
    #[verifier::rlimit(60)]
    proof fn lemma_link_tree(&self, old: MenuSystem, s: int, item: int, pos: int)
        requires
            old.wf(),
            self.linked_child(old, s, item, pos),
        ensures
            self.ranks_ok(),
            self.children_ok(),
            self.menu_lists_ok(),
            self.ids_ok(),
    {
        let n = self.n_entries();
        assert(item < self.entries.len() && s < self.entries.len());
        let oc = old.entries@[s].children@;
        let nc = self.entries@[s].children@;
        assert(!oc.contains(item as usize)) by {
            reveal(MenuSystem::children_ok);
            if oc.contains(item as usize) {
                let j = choose|j: int| 0 <= j < oc.len() && oc[j] == item as usize;
                assert(old.entries@[oc[j] as int].owner == Owner::InSubmenu(s as usize));
            }
        }
        assert forall|e: int| 0 <= e < n && e != item implies (#[trigger] self.entries@[e]).owner == old.entries@[e].owner by {}
        assert(self.ranks_ok()) by {
            reveal(MenuSystem::ranks_ok);
        }
        assert(self.children_ok()) by {
            reveal(MenuSystem::children_ok);
            assert forall|e: int, j: int|
                0 <= e < n && 0 <= j < self.entries@[e].children@.len() implies {
                    let c = #[trigger] self.entries@[e].children@[j] as int;
                    &&& 0 <= c < n
                    &&& self.entries@[c].owner == Owner::InSubmenu(e as usize)
                    &&& self.rank@[c] < self.rank@[e]
                } by {
                if e == s {
                    if j < pos {
                        assert(nc[j] == oc[j]);
                        assert(old.entries@[oc[j] as int].owner == Owner::InSubmenu(e as usize));
                    } else if j == pos {
                        assert(nc[j] == item as usize);
                    } else {
                        assert(nc[j] == oc[j - 1]);
                        assert(old.entries@[oc[j - 1] as int].owner == Owner::InSubmenu(e as usize));
                    }
                } else {
                    assert(self.entries@[e].children == old.entries@[e].children);
                    let c = old.entries@[e].children@[j] as int;
                    assert(old.entries@[c].owner == Owner::InSubmenu(e as usize));
                    assert(c != item);
                }
            }
        }
        assert(self.menu_lists_ok()) by {
            reveal(MenuSystem::menu_lists_ok);
            assert forall|m: int, j: int|
                0 <= m < self.menus@.len() && 0 <= j < self.menus@[m].entries@.len() implies {
                    let c = #[trigger] self.menus@[m].entries@[j] as int;
                    &&& 0 <= c < n
                    &&& self.entries@[c].owner == Owner::InMenu(m as usize)
                } by {
                let c = self.menus@[m].entries@[j] as int;
                assert(old.entries@[c].owner == Owner::InMenu(m as usize));
            }
        }
        assert(self.ids_ok()) by {
            reveal(MenuSystem::ids_ok);
            assert forall|e: int| 0 <= e < n implies (#[trigger] self.entries@[e]).id == old.entries@[e].id by {}
        }
    }

    /// What `owners_ok` says of entry `e`.
    pub open spec fn owner_clause(&self, e: int) -> bool {
        &&& self.entries@[e].children@.no_duplicates()
        &&& self.entries@[e].kind != ItemKind::Submenu ==> self.entries@[e].children@.len() == 0
        &&& match self.entries@[e].owner {
            Owner::InSubmenu(p) => p < self.n_entries() && self.entries@[p as int].children@.contains(
                e as usize,
            ),
            Owner::InMenu(m) => m < self.menus@.len() && self.menus@[m as int].entries@.contains(
                e as usize,
            ),
            Owner::Detached => true,
        }
    }

    pub proof fn lemma_owner_clause(&self, e: int)
        requires
            self.owners_ok(),
            0 <= e < self.n_entries(),
        ensures
            self.owner_clause(e),
    {
        reveal(MenuSystem::owners_ok);
        assert(self.entries@[e] == self.entries@[e]);
    }

    proof fn lemma_link_owner_one(&self, old: MenuSystem, s: int, item: int, pos: int, e: int)
        requires
            self.linked_child(old, s, item, pos),
            0 <= e < old.n_entries(),
            old.owner_clause(e),
            old.owner_clause(s),
            !old.entries@[s].children@.contains(item as usize),
            item < self.entries.len(),
            s < self.entries.len(),
        ensures
            self.owner_clause(e),
    {
        let oc = old.entries@[s].children@;
        if e == s {
            lemma_insert_no_duplicates(oc, pos, item as usize);
        }
        if e == item {
            assert(self.entries@[s].children@[pos] == item as usize);
        } else {
            match self.entries@[e].owner {
                Owner::InSubmenu(p) => {
                    if p as int == s {
                        lemma_insert_contains(oc, pos, item as usize, e as usize);
                    } else {
                        assert(self.entries@[p as int].children == old.entries@[p as int].children);
                    }
                },
                _ => {},
            }
        }
    }

    #[verifier::spinoff_prover]
    #[verifier::rlimit(60)]
    proof fn lemma_link_owners(&self, old: MenuSystem, s: int, item: int, pos: int)
        requires
            old.wf(),
            self.linked_child(old, s, item, pos),
        ensures
            self.owners_ok(),
    {
        assert(item < self.entries.len() && s < self.entries.len());
        let oc = old.entries@[s].children@;
        assert(!oc.contains(item as usize)) by {
            reveal(MenuSystem::children_ok);
            if oc.contains(item as usize) {
                let j = choose|j: int| 0 <= j < oc.len() && oc[j] == item as usize;
                assert(old.entries@[oc[j] as int].owner == Owner::InSubmenu(s as usize));
            }
        }
        old.lemma_owner_clause(s);
        assert forall|e: int| 0 <= e < self.n_entries() implies #[trigger] self.owner_clause(e) by {
            old.lemma_owner_clause(e);
            self.lemma_link_owner_one(old, s, item, pos, e);
        }
        reveal(MenuSystem::owners_ok);
        assert forall|e: int| 0 <= e < self.n_entries() implies {
                    &&& (#[trigger] self.entries@[e]).children@.no_duplicates()
                    &&& self.entries@[e].kind != ItemKind::Submenu ==> self.entries@[e].children@.len()
                        == 0
                    &&& match self.entries@[e].owner {
                        Owner::InSubmenu(p) => p < self.n_entries() && self.entries@[p as int].children@.contains(
                            e as usize,
                        ),
                        Owner::InMenu(m) => m < self.menus@.len() && self.menus@[m as int].entries@.contains(
                            e as usize,
                        ),
                        Owner::Detached => true,
                    }
                } by {
            assert(self.owner_clause(e));
        }
    }

    #[verifier::spinoff_prover]
    proof fn lemma_link_natives(&self, old: MenuSystem, s: int, item: int, pos: int)
        requires
            old.wf(),
            self.linked_child(old, s, item, pos),
        ensures
            self.widgets_registered(),
            self.projections_ok(),
            self.menus_ok(),
    {
        let n = self.n_entries();
        assert(item < self.entries.len() && s < self.entries.len());
        assert forall|e: int| 0 <= e < n && e != item implies (#[trigger] self.entries@[e]).owner == old.entries@[e].owner by {}
        assert(self.widgets_registered()) by {
            reveal(MenuSystem::widgets_registered);
            assert forall|h: int| #[trigger] self.alive(h) implies self.role_ok(h) && self.registered(h) by {
                assert(old.alive(h));
                match self.widgets@[h].role {
                    Role::Item { entry, .. } => {
                        assert(self.entries@[entry as int].projections == old.entries@[entry as int].projections);
                    },
                    _ => {},
                }
            }
        }
        assert(self.projections_ok()) by {
            reveal(MenuSystem::projections_ok);
            assert forall|e: int, k: int|
                0 <= e < n && 0 <= k < self.entries@[e].projections@.len()
                    implies #[trigger] self.projection_ok(e, k) by {
                assert(old.projection_ok(e, k));
            }
        }
        assert(self.menus_ok()) by {
            reveal(MenuSystem::menus_ok);
            assert forall|m: int| 0 <= m < self.menus@.len() implies #[trigger] self.menu_ok(m) by {
                assert(old.menu_ok(m));
            }
        }
    }

    #[verifier::spinoff_prover]
    #[verifier::rlimit(60)]
    proof fn lemma_link_containers(&self, old: MenuSystem, s: int, item: int, pos: int, targets: Seq<usize>)
        requires
            old.wf(),
            self.linked_child(old, s, item, pos),
            targets.len() == old.entries@[s].projections@.len(),
            forall|k: int| 0 <= k < targets.len() ==> #[trigger] targets[k] == old.entries@[s].projections@[k].widget,
        ensures
            self.containers_ok_except(Set::new(|h: int| (exists|i: int| 0 <= i < targets.len() && targets[i] as int == h))),
            forall|k: int|
                0 <= k < targets.len() ==> {
                    let t = #[trigger] targets[k] as int;
                    &&& self.alive(t)
                    &&& (self.container_ok(t) || (self.almost_ok(t, pos) && self.shown(t)[pos] == item as usize))
                },
    {
        let n = self.n_entries();
        assert(item < self.entries.len() && s < self.entries.len());
        let tset = Set::new(|h: int| (exists|i: int| 0 <= i < targets.len() && targets[i] as int == h));
        let oc = old.entries@[s].children@;
        let nc = self.entries@[s].children@;
        assert forall|k: int| 0 <= k < targets.len() implies {
                let t = #[trigger] targets[k] as int;
                &&& self.alive(t)
                &&& (self.container_ok(t) || (self.almost_ok(t, pos) && self.shown(t)[pos] == item as usize))
            } by {
            reveal(MenuSystem::projections_ok);
            reveal(MenuSystem::containers_ok_except);
            let t = targets[k] as int;
            assert(old.projection_ok(s, k));
            assert(old.alive(t));
            assert(old.container_ok(t));
            assert(self.shown(t) == nc);
            assert(old.shown(t) == oc);
            let ch = self.widgets@[t].children@;
            assert forall|j: int| 0 <= j < ch.len() implies {
                let x = #[trigger] ch[j] as int;
                &&& 0 <= x < self.widgets@.len()
                &&& self.widgets@[x].alive
                &&& self.widgets@[x].role == (Role::Item {
                    entry: self.shown(t)[if j < pos {
                        j
                    } else {
                        j + 1
                    }],
                    parent: t as usize,
                })
            } by {
                assert(old.child_ok(t, j));
            }
        }
        assert(self.containers_ok_except(tset)) by {
            reveal(MenuSystem::containers_ok_except);
            reveal(MenuSystem::widgets_registered);
            assert forall|h: int| #[trigger] self.alive(h) && !tset.contains(h) implies self.container_ok(h) by {
                assert(old.alive(h));
                assert(h < old.widgets.len());
                assert(old.container_ok(h));
                assert(old.registered(h));
                assert(old.role_ok(h));
                match self.widgets@[h].role {
                    Role::Item { entry, parent } => {
                        if entry as int == s {
                            let k = choose|k: int|
                                0 <= k < old.entries@[s].projections@.len()
                                    && #[trigger] old.entries@[s].projections@[k] == (Projection {
                                    parent,
                                    widget: h as usize,
                                });
                            assert(targets[k] as int == h);
                            assert(tset.contains(h));
                        }
                        assert(self.entries@[entry as int].children == old.entries@[entry as int].children);
                    },
                    _ => {},
                }
                assert(self.shown(h) == old.shown(h));
                assert forall|j: int| 0 <= j < self.shown(h).len() implies #[trigger] self.child_ok(h, j) by {
                    assert(old.child_ok(h, j));
                }
            }
        }
    }


    /// Inserts the detached entry `item` into submenu `s` at `pos`, and
    /// projects it into every native container of `s`.
    #[verifier::spinoff_prover]
    #[verifier::rlimit(60)]
    pub fn insert_into_submenu(&mut self, s: usize, item: usize, pos: usize) -> (r: Result<(), MenuError>)
        requires
            old(self).wf(),
            (s as int) < old(self).n_entries(),
            (item as int) < old(self).n_entries(),
            old(self).entries@[s as int].kind == ItemKind::Submenu,
        ensures
            final(self).wf(),
            pos > old(self).entries@[s as int].children@.len() ==> r == Err::<(), MenuError>(MenuError::OutOfRange),
            pos <= old(self).entries@[s as int].children@.len() && old(self).entries@[item as int].owner != Owner::Detached
                ==> r == Err::<(), MenuError>(MenuError::AlreadyAttached),
            pos <= old(self).entries@[s as int].children@.len() && old(self).entries@[item as int].owner == Owner::Detached
                && old(self).is_ancestor(item as int, s as int) ==> r == Err::<(), MenuError>(MenuError::WouldContainItself),
            pos <= old(self).entries@[s as int].children@.len() && old(self).entries@[item as int].owner == Owner::Detached
                && !old(self).is_ancestor(item as int, s as int) ==> r is Ok,
            r is Err ==> *final(self) == *old(self),
            final(self).entries@.len() == old(self).entries@.len(),
            forall|e: int| 0 <= e < final(self).n_entries() ==> (#[trigger] final(self).entries@[e]).kind == old(self).entries@[e].kind,
            final(self).contents_kept(*old(self)),
            r is Ok ==> {
                &&& final(self).entries@.len() == old(self).entries@.len()
                &&& final(self).entries@[s as int].children@ == old(self).entries@[s as int].children@.insert(pos as int, item)
                &&& final(self).entries@[item as int].owner == Owner::InSubmenu(s)
                &&& final(self).entries@[s as int].owner == old(self).entries@[s as int].owner
                &&& forall|e: int| 0 <= e < final(self).n_entries() && e != s && e != item ==> same_but_projections(#[trigger] final(self).entries@[e], old(self).entries@[e])
                &&& final(self).same_menu_entries(*old(self))
            },
            old(self).entries@[s as int].projections@.len() == 0 ==> final(self).entries@[s as int].projections@.len() == 0,
            final(self).creates_new_widgets(*old(self)),
    {
        if pos > self.entries[s].children.len() {
            return Err(MenuError::OutOfRange);
        }
        match self.entries[item].owner {
            Owner::Detached => {},
            _ => {
                return Err(MenuError::AlreadyAttached);
            },
        }
        let ghost s0 = *self;
        if self.check_nesting(s, item) {
            return Err(MenuError::WouldContainItself);
        }
        proof {
            if s == item {
                assert(s0.ancestor_within(item as int, s as int, 0));
            }
        }
        let targets = self.containers_of(s);
        let ghost s1 = *self;
        self.entries[s].children.insert(pos, item);
        self.entries[item].owner = Owner::InSubmenu(s);
        proof {
            assert(same_content(self.entries@[s as int], s1.entries@[s as int]));
            assert(same_content(self.entries@[item as int], s1.entries@[item as int]));
            assert(self.linked_child(s1, s as int, item as int, pos as int));
            self.lemma_link_tree(s1, s as int, item as int, pos as int);
            self.lemma_link_owners(s1, s as int, item as int, pos as int);
            self.lemma_link_natives(s1, s as int, item as int, pos as int);
            self.lemma_link_containers(s1, s as int, item as int, pos as int, targets@);
        }
        let ghost s2 = *self;
        let ghost tlen = targets@.len();
        self.project_into_all(item, pos, &targets);
        proof {
            if s1.entries@[s as int].projections@.len() == 0 {
                assert(tlen == 0);
                assert(self.entries@[s as int].projections == s2.entries@[s as int].projections);
            }
            assert forall|e: int| 0 <= e < self.n_entries() && e != s && e != item implies same_but_projections(#[trigger] self.entries@[e], s0.entries@[e]) by {
                assert(same_but_projections(self.entries@[e], s2.entries@[e]));
            }
            assert(same_but_projections(self.entries@[s as int], s2.entries@[s as int]));
            assert(same_but_projections(self.entries@[item as int], s2.entries@[item as int]));
            assert forall|e: int| 0 <= e < self.n_entries() implies (#[trigger] self.entries@[e]).kind == s0.entries@[e].kind by {
                assert(same_but_projections(self.entries@[e], s2.entries@[e]));
            }
            assert forall|e: int| 0 <= e < self.entries@.len() implies same_content(#[trigger] self.entries@[e], s0.entries@[e]) by {
                assert(same_but_projections(self.entries@[e], s2.entries@[e]));
                assert(same_content(s2.entries@[e], s1.entries@[e]));
            }
        }
        Ok(())
    }

    /// Removes from entry `e`'s projection store every record of widget `x`.
    fn drop_projections(&mut self, e: usize, x: usize)
        requires
            (e as int) < old(self).n_entries(),
        ensures
            final(self).entries@.len() == old(self).entries@.len(),
            forall|i: int| 0 <= i < final(self).n_entries() && i != e ==> #[trigger] final(self).entries@[i] == old(self).entries@[i],
            same_but_projections(final(self).entries@[e as int], old(self).entries@[e as int]),
            forall|k: int| 0 <= k < final(self).entries@[e as int].projections@.len() ==> (#[trigger] final(self).entries@[e as int].projections@[k]).widget != x && old(self).entries@[e as int].projections@.contains(final(self).entries@[e as int].projections@[k]),
            forall|k: int| 0 <= k < old(self).entries@[e as int].projections@.len() && (#[trigger] old(self).entries@[e as int].projections@[k]).widget != x ==> final(self).entries@[e as int].projections@.contains(old(self).entries@[e as int].projections@[k]),
            final(self).menus == old(self).menus,
            final(self).widgets == old(self).widgets,
            final(self).ids == old(self).ids,
            final(self).rank == old(self).rank,
            final(self).rank_bound == old(self).rank_bound,
            final(self).ops == old(self).ops,
    {
        let ghost olds = self.entries@[e as int].projections@;
        let n = self.entries[e].projections.len();
        let mut kept: Vec<Projection> = Vec::new();
        let mut k: usize = 0;
        while k < n
            invariant
                0 <= k <= n,
                (e as int) < self.n_entries(),
                n == olds.len(),
                self.entries@[e as int].projections@ == olds,
                forall|i: int| 0 <= i < kept@.len() ==> (#[trigger] kept@[i]).widget != x && olds.contains(kept@[i]),
                forall|i: int| 0 <= i < k && (#[trigger] olds[i]).widget != x ==> kept@.contains(olds[i]),
            decreases n - k,
        {
            let pr = self.entries[e].projections[k];
            proof {
                assert(olds[k as int] == pr);
            }
            if pr.widget != x {
                let ghost before = kept@;
                kept.push(pr);
                proof {
                    assert(kept@ == before.push(pr));
                    assert forall|i: int| 0 <= i < kept@.len() implies (#[trigger] kept@[i]).widget != x && olds.contains(kept@[i]) by {
                        if i < before.len() {
                            assert(kept@[i] == before[i]);
                        } else {
                            assert(kept@[i] == olds[k as int]);
                        }
                    }
                    assert forall|i: int| 0 <= i < k + 1 && (#[trigger] olds[i]).widget != x implies kept@.contains(olds[i]) by {
                        if i < k {
                            assert(before.contains(olds[i]));
                            let j = choose|j: int| 0 <= j < before.len() && before[j] == olds[i];
                            assert(kept@[j] == olds[i]);
                        } else {
                            assert(kept@[before.len() as int] == olds[i]);
                        }
                    }
                }
            }
            k = k + 1;
        }
        self.entries[e].projections = kept;
    }

    /// Marks widget `h` destroyed and forgets it in its entry's projection
    /// store.
    #[verifier::spinoff_prover]
    #[verifier::rlimit(60)]
    fn kill_widget(&mut self, h: usize, Ghost(skip): Ghost<Set<int>>)
        requires
            old(self).inv_except(skip),
            old(self).alive(h as int),
            old(self).widgets@[h as int].role is Item,
            skip.contains(old(self).widgets@[h as int].role->parent as int) || !old(self).alive(old(self).widgets@[h as int].role->parent as int),
        ensures
            final(self).inv_except(skip),
            !final(self).alive(h as int),
            final(self).same_logic(*old(self)),
            final(self).menus == old(self).menus,
            final(self).widgets@.len() == old(self).widgets@.len(),
            forall|i: int| 0 <= i < final(self).widgets@.len() && i != h ==> #[trigger] final(self).widgets@[i] == old(self).widgets@[i],
            same_but_alive(final(self).widgets@[h as int], old(self).widgets@[h as int]),
            final(self).ops == old(self).ops,
    {
        let ghost s0 = *self;
        let e = match self.widgets[h].role {
            Role::Item { entry, .. } => entry,
            Role::Bar { .. } => 0,
        };
        proof {
            reveal(MenuSystem::widgets_registered);
            assert(s0.role_ok(h as int));
        }
        self.widgets[h].alive = false;
        self.drop_projections(e, h);
        proof {
            assert forall|i: int| 0 <= i < self.n_entries() implies same_but_projections(#[trigger] self.entries@[i], s0.entries@[i]) by {}
            assert forall|i: int| 0 <= i < self.widgets@.len() && i != h implies #[trigger] self.widgets@[i] == s0.widgets@[i] by {}
            assert forall|m: int| 0 <= m < self.menus@.len() implies (#[trigger] self.menus@[m]).entries == s0.menus@[m].entries by {}
            self.lemma_same_logic_tree(s0);
            self.lemma_tree_frame(s0);
            assert(self.widgets_registered()) by {
                reveal(MenuSystem::widgets_registered);
                assert forall|w: int| #[trigger] self.alive(w) implies self.role_ok(w) && self.registered(w) by {
                    assert(s0.alive(w));
                    assert(s0.role_ok(w) && s0.registered(w));
                    match self.widgets@[w].role {
                        Role::Item { entry, parent } => {
                            if entry == e {
                                let k = choose|k: int|
                                    0 <= k < s0.entries@[entry as int].projections@.len()
                                        && #[trigger] s0.entries@[entry as int].projections@[k] == (Projection { parent, widget: w as usize });
                                assert(w < self.widgets.len());
                                assert(self.entries@[entry as int].projections@.contains(s0.entries@[entry as int].projections@[k]));
                                let k2 = choose|k2: int| 0 <= k2 < self.entries@[entry as int].projections@.len() && self.entries@[entry as int].projections@[k2] == s0.entries@[entry as int].projections@[k];
                                assert(self.entries@[entry as int].projections@[k2] == (Projection { parent, widget: w as usize }));
                            } else {
                                assert(self.entries@[entry as int] == s0.entries@[entry as int]);
                            }
                        },
                        Role::Bar { menu } => {},
                    }
                }
            }
            assert(self.projections_ok()) by {
                reveal(MenuSystem::projections_ok);
                assert forall|i: int, k: int|
                    0 <= i < self.n_entries() && 0 <= k < self.entries@[i].projections@.len()
                        implies #[trigger] self.projection_ok(i, k) by {
                    if i == e as int {
                        let pr = self.entries@[i].projections@[k];
                        assert(s0.entries@[i].projections@.contains(pr));
                        let k0 = choose|k0: int| 0 <= k0 < s0.entries@[i].projections@.len() && s0.entries@[i].projections@[k0] == pr;
                        assert(s0.projection_ok(i, k0));
                        assert(pr.widget != h);
                    } else {
                        assert(s0.projection_ok(i, k));
                        let w = self.entries@[i].projections@[k].widget as int;
                        assert(s0.widgets@[w].role == (Role::Item { entry: i as usize, parent: self.entries@[i].projections@[k].parent }));
                        assert(i < self.entries.len());
                        assert(w != h as int);
                    }
                }
            }
            assert(self.menus_ok()) by {
                reveal(MenuSystem::menus_ok);
                assert forall|m: int| 0 <= m < self.menus@.len() implies #[trigger] self.menu_ok(m) by {
                    assert(s0.menu_ok(m));
                    let md = self.menus@[m];
                    assert forall|b: int| 0 <= b < md.bars@.len() implies {
                        let w = (#[trigger] md.bars@[b]).bar as int;
                        self.alive(w) && self.widgets@[w].role == (Role::Bar { menu: m as usize })
                    } by {
                        let w = md.bars@[b].bar as int;
                        assert(w != h as int);
                    }
                    match md.context {
                        Some(c) => {
                            assert(c as int != h as int);
                        },
                        None => {},
                    }
                }
            }
            assert(self.containers_ok_except(skip)) by {
                reveal(MenuSystem::containers_ok_except);
                assert forall|w: int| #[trigger] self.alive(w) && !skip.contains(w) implies self.container_ok(w) by {
                    assert(w != h as int);
                    assert(s0.alive(w));
                    assert(s0.container_ok(w));
                    assert(self.shown(w) == s0.shown(w)) by {
                        reveal(MenuSystem::widgets_registered);
                        assert(s0.role_ok(w));
                        match self.widgets@[w].role {
                            Role::Item { entry, .. } => {
                                assert(same_but_projections(self.entries@[entry as int], s0.entries@[entry as int]));
                            },
                            _ => {},
                        }
                    }
                    assert forall|j: int| 0 <= j < self.shown(w).len() implies #[trigger] self.child_ok(w, j) by {
                        assert(s0.child_ok(w, j));
                        let c = self.widgets@[w].children@[j] as int;
                        assert(w < self.widgets.len());
                        if c == h as int {
                            assert(s0.widgets@[h as int].role->parent == w as usize);
                        }
                        assert(c != h as int);
                    }
                }
            }
        }
    }

    /// Destroys widget `x` and every widget below it in the native tree.
    /// A parent's handle is always lower than its children's, so one pass
    /// over the handles from `x` upwards finds them all.
    fn destroy_subtree(&mut self, x: usize, Ghost(skip): Ghost<Set<int>>)
        requires
            old(self).inv_except(skip),
            old(self).alive(x as int),
            old(self).widgets@[x as int].role is Item,
            skip.contains(old(self).widgets@[x as int].role->parent as int),
        ensures
            final(self).inv_except(skip),
            !final(self).alive(x as int),
            final(self).same_logic(*old(self)),
            final(self).menus == old(self).menus,
            final(self).widgets@.len() == old(self).widgets@.len(),
            forall|h: int| 0 <= h < final(self).widgets@.len() ==> same_but_alive(#[trigger] final(self).widgets@[h], old(self).widgets@[h]),
            forall|h: int| #[trigger] final(self).alive(h) ==> old(self).alive(h),
            forall|h: int|
                #[trigger] old(self).alive(h) && !final(self).alive(h) ==> h >= x && (h == x || (final(self).widgets@[h].role is Item
                    && !final(self).alive(final(self).widgets@[h].role->parent as int))),
            final(self).ops@ == old(self).ops@.push(NativeOp::Destroy { handle: x }),
            forall|h: int| #[trigger] old(self).alive(h) && old(self).under(h, x as int) ==> !final(self).alive(h),
    {
        let ghost s0 = *self;
        let n = self.widgets.len();
        let mut marked: Vec<bool> = Vec::new();
        let mut i: usize = 0;
        while i < n
            invariant
                0 <= i <= n,
                marked@.len() == i,
                forall|k: int| 0 <= k < i ==> !(#[trigger] marked@[k]),
            decreases n - i,
        {
            marked.push(false);
            i = i + 1;
        }
        proof {
            assert forall|e: int| 0 <= e < self.entries@.len() implies same_but_projections(#[trigger] self.entries@[e], self.entries@[e]) by {}
        }
        let mut h: usize = x;
        while h < n
            invariant
                h == x ==> self.ops == s0.ops,
                h > x ==> self.ops@ == s0.ops@.push(NativeOp::Destroy { handle: x }),
                forall|k: int| x <= k < h && #[trigger] s0.alive(k) && s0.under(k, x as int) ==> marked@[k],
                x <= h <= n,
                n == s0.widgets@.len(),
                s0.widgets_registered(),
                marked@.len() == n,
                self.inv_except(skip),
                self.same_logic(s0),
                self.menus == s0.menus,
                self.widgets@.len() == n,
                s0.alive(x as int),
                s0.widgets@[x as int].role is Item,
                skip.contains(s0.widgets@[x as int].role->parent as int),
                forall|k: int| 0 <= k < n ==> same_but_alive(#[trigger] self.widgets@[k], s0.widgets@[k]),
                forall|k: int| #[trigger] self.alive(k) ==> s0.alive(k),
                forall|k: int| 0 <= k < n && #[trigger] marked@[k] ==> !self.alive(k) && x <= k < h,
                h == x ==> self.alive(x as int),
                h > x ==> !self.alive(x as int),
                forall|k: int|
                    #[trigger] s0.alive(k) && !self.alive(k) ==> k >= x && k < h && (k == x || (s0.widgets@[k].role is Item
                        && marked@[s0.widgets@[k].role->parent as int])),
            decreases n - h,
        {
            proof {
                if h != x && s0.alive(h as int) && s0.under(h as int, x as int) {
                    let p = s0.widgets@[h as int].role->parent as int;
                    s0.lemma_under_ge(p, x as int);
                    assert(marked@[p]);
                    assert(same_but_alive(self.widgets@[h as int], s0.widgets@[h as int]));
                    assert(self.alive(h as int));
                }
            }
            let kill: bool = if h == x {
                true
            } else {
                match self.widgets[h].role {
                    Role::Item { parent, .. } => parent >= x && parent < h && marked[parent] && self.widgets[h].alive,
                    Role::Bar { .. } => false,
                }
            };
            let ghost s_head = *self;
            if kill {
                if h == x {
                    let ghost sp = *self;
                    self.ops.push(NativeOp::Destroy { handle: x });
                    proof {
                        self.lemma_ops_frame(sp, skip);
                    }
                }
                let ghost s1 = *self;
                let ghost m1 = marked@;
                self.kill_widget(h, Ghost(skip));
                marked.set(h, true);
                proof {
                    Self::lemma_same_logic_trans(*self, s1, s0);
                    assert(marked@ == m1.update(h as int, true));
                    assert(s1.widgets == s_head.widgets);
                    assert forall|k: int| #[trigger] self.alive(k) implies s0.alive(k) by {
                        assert(k != h as int);
                        assert(self.widgets@[k] == s1.widgets@[k]);
                        assert(s_head.alive(k));
                    }
                    assert forall|k: int|
                        #[trigger] s0.alive(k) && !self.alive(k) implies k >= x && k < h + 1 && (k == x || (s0.widgets@[k].role is Item
                            && marked@[s0.widgets@[k].role->parent as int])) by {
                        if k != h as int {
                            assert(self.widgets@[k] == s1.widgets@[k]);
                            assert(!s_head.alive(k));
                            reveal(MenuSystem::widgets_registered);
                            assert(s0.role_ok(k));
                        } else if k != x as int {
                            assert(same_but_alive(s_head.widgets@[k], s0.widgets@[k]));
                            match s_head.widgets@[k].role {
                                Role::Item { parent, .. } => {
                                    assert(m1[parent as int]);
                                    assert(parent != h);
                                    assert(marked@[parent as int]);
                                },
                                Role::Bar { .. } => {
                                    assert(false);
                                },
                            }
                        }
                    }
                }
            }
            h = h + 1;
        }
        proof {
            assert forall|k: int| #[trigger] s0.alive(k) && s0.under(k, x as int) implies !self.alive(k) by {
                s0.lemma_under_ge(k, x as int);
                assert(marked@[k]);
            }
            assert forall|k: int|
                #[trigger] s0.alive(k) && !self.alive(k) implies k >= x && (k == x || (self.widgets@[k].role is Item
                    && !self.alive(self.widgets@[k].role->parent as int))) by {
                if k != x as int {
                    assert(same_but_alive(self.widgets@[k], s0.widgets@[k]));
                    let q = s0.widgets@[k].role->parent as int;
                    assert(marked@[q]);
                }
            }
        }
    }

    /// The queue of native changes plays no part in the invariant.
    proof fn lemma_ops_frame(&self, old: MenuSystem, skip: Set<int>)
        requires
            old.inv_except(skip),
            self.entries == old.entries,
            self.menus == old.menus,
            self.widgets == old.widgets,
            self.ids == old.ids,
            self.rank == old.rank,
            self.rank_bound == old.rank_bound,
        ensures
            self.inv_except(skip),
            self.same_logic(old),
    {
        assert(self.ranks_ok()) by {
            reveal(MenuSystem::ranks_ok);
        }
        assert(self.children_ok()) by {
            reveal(MenuSystem::children_ok);
        }
        assert(self.owners_ok()) by {
            reveal(MenuSystem::owners_ok);
        }
        assert(self.menu_lists_ok()) by {
            reveal(MenuSystem::menu_lists_ok);
        }
        assert(self.ids_ok()) by {
            reveal(MenuSystem::ids_ok);
        }
        assert(self.widgets_registered()) by {
            reveal(MenuSystem::widgets_registered);
            assert forall|h: int| #[trigger] self.alive(h) implies self.role_ok(h) && self.registered(h) by {
                assert(old.alive(h));
            }
        }
        assert(self.projections_ok()) by {
            reveal(MenuSystem::projections_ok);
            assert forall|e: int, k: int|
                0 <= e < self.n_entries() && 0 <= k < self.entries@[e].projections@.len()
                    implies #[trigger] self.projection_ok(e, k) by {
                assert(old.projection_ok(e, k));
            }
        }
        assert(self.menus_ok()) by {
            reveal(MenuSystem::menus_ok);
            assert forall|m: int| 0 <= m < self.menus@.len() implies #[trigger] self.menu_ok(m) by {
                assert(old.menu_ok(m));
            }
        }
        assert(self.containers_ok_except(skip)) by {
            reveal(MenuSystem::containers_ok_except);
            assert forall|h: int| #[trigger] self.alive(h) && !skip.contains(h) implies self.container_ok(h) by {
                assert(old.alive(h));
                assert(old.container_ok(h));
                assert forall|j: int| 0 <= j < self.shown(h).len() implies #[trigger] self.child_ok(h, j) by {
                    assert(old.child_ok(h, j));
                }
            }
        }
        assert forall|e: int| 0 <= e < self.n_entries() implies same_but_projections(#[trigger] self.entries@[e], old.entries@[e]) by {}
    }

    /// Changing only the children of a container in `skip` keeps
    /// `inv_except(skip)`.
    proof fn lemma_children_frame(&self, old: MenuSystem, t: int, skip: Set<int>)
        requires
            old.inv_except(skip),
            skip.contains(t),
            0 <= t < old.widgets@.len(),
            self.entries == old.entries,
            self.menus == old.menus,
            self.ids == old.ids,
            self.rank == old.rank,
            self.rank_bound == old.rank_bound,
            self.widgets@.len() == old.widgets@.len(),
            forall|h: int| 0 <= h < self.widgets@.len() && h != t ==> #[trigger] self.widgets@[h] == old.widgets@[h],
            same_but_children(self.widgets@[t], old.widgets@[t]),
        ensures
            self.inv_except(skip),
    {
        assert forall|e: int| 0 <= e < self.n_entries() implies same_but_projections(#[trigger] self.entries@[e], old.entries@[e]) by {}
        assert forall|m: int| 0 <= m < self.menus@.len() implies (#[trigger] self.menus@[m]).entries == old.menus@[m].entries by {}
        assert forall|e: int| 0 <= e < self.entries@.len() implies old.entries@[e].projections@.len()
            <= (#[trigger] self.entries@[e]).projections@.len()
            && self.entries@[e].projections@.subrange(0, old.entries@[e].projections@.len() as int)
            == old.entries@[e].projections@ by {
            assert(self.entries@[e].projections@.subrange(0, old.entries@[e].projections@.len() as int) =~= old.entries@[e].projections@);
        }
        assert forall|h: int| 0 <= h < old.widgets@.len() implies same_but_children(#[trigger] self.widgets@[h], old.widgets@[h]) by {}
        self.lemma_same_logic_tree(old);
        self.lemma_tree_frame(old);
        self.lemma_natives_frame(old);
        assert(self.widgets_registered()) by {
            reveal(MenuSystem::widgets_registered);
        }
        assert(self.projections_ok()) by {
            reveal(MenuSystem::projections_ok);
        }
        assert(self.menus_ok()) by {
            reveal(MenuSystem::menus_ok);
        }
        assert(self.containers_ok_except(skip)) by {
            reveal(MenuSystem::containers_ok_except);
            assert forall|h: int| #[trigger] self.alive(h) && !skip.contains(h) implies self.container_ok(h) by {
                assert(old.alive(h));
                assert(old.container_ok(h));
                assert(self.widgets@[h] == old.widgets@[h]);
                assert(self.shown(h) == old.shown(h));
                assert forall|j: int| 0 <= j < self.shown(h).len() implies #[trigger] self.child_ok(h, j) by {
                    assert(old.child_ok(h, j));
                    let c = self.widgets@[h].children@[j] as int;
                    assert(same_but_children(self.widgets@[c], old.widgets@[c]));
                }
            }
        }
    }


    /// The container `t` mirrors its logical children but for the child at
    /// `idx`, whose widget is already gone.
    pub open spec fn almost_removed(&self, t: int, idx: int) -> bool {
        let ch = self.widgets@[t].children@;
        &&& ch.len() + 1 == self.shown(t).len()
        &&& 0 <= idx < self.shown(t).len()
        &&& forall|j: int|
            0 <= j < ch.len() ==> {
                let x = #[trigger] ch[j] as int;
                &&& 0 <= x < self.widgets@.len()
                &&& self.widgets@[x].alive
                &&& self.widgets@[x].role == (Role::Item {
                    entry: self.shown(t)[if j < idx {
                        j
                    } else {
                        j + 1
                    }],
                    parent: t as usize,
                })
            }
    }

    pub open spec fn target_state(&self, t: int, idx: int) -> bool {
        !self.alive(t) || self.container_ok(t) || self.almost_removed(t, idx)
    }

    proof fn lemma_targets_after_destroy(&self, s1: MenuSystem, targets: Seq<usize>, x: int, idx: int)
        requires
            s1.widgets_registered(),
            forall|k: int| 0 <= k < targets.len() ==> #[trigger] s1.target_state(targets[k] as int, idx),
            0 <= x < s1.widgets@.len(),
            s1.widgets@[x].role is Item,
            self.same_logic(s1),
            self.menus == s1.menus,
            self.widgets@.len() == s1.widgets@.len(),
            forall|h: int| 0 <= h < self.widgets@.len() ==> same_but_alive(#[trigger] self.widgets@[h], s1.widgets@[h]),
            forall|h: int| #[trigger] self.alive(h) ==> s1.alive(h),
            forall|h: int|
                #[trigger] s1.alive(h) && !self.alive(h) ==> h >= x && (h == x || (self.widgets@[h].role is Item
                    && !self.alive(self.widgets@[h].role->parent as int))),
        ensures
            forall|k: int|
                0 <= k < targets.len() && targets[k] as int != s1.widgets@[x].role->parent as int
                    ==> #[trigger] self.target_state(targets[k] as int, idx),
            forall|k: int|
                0 <= k < targets.len() && targets[k] as int != s1.widgets@[x].role->parent as int
                    && #[trigger] s1.almost_removed(targets[k] as int, idx) && self.alive(targets[k] as int)
                    ==> self.almost_removed(targets[k] as int, idx),
    {
        assert forall|k: int|
            0 <= k < targets.len() && targets[k] as int != s1.widgets@[x].role->parent as int
                implies #[trigger] self.target_state(targets[k] as int, idx) && (s1.almost_removed(targets[k] as int, idx) && self.alive(targets[k] as int) ==> self.almost_removed(targets[k] as int, idx)) by {
            let u = targets[k] as int;
            assert(s1.target_state(u, idx));
            if self.alive(u) {
                assert(s1.alive(u));
                reveal(MenuSystem::widgets_registered);
                assert(s1.role_ok(u));
                assert(same_but_alive(self.widgets@[u], s1.widgets@[u]));
                assert(self.shown(u) == s1.shown(u)) by {
                    match self.widgets@[u].role {
                        Role::Item { entry, .. } => {
                            assert(same_but_projections(self.entries@[entry as int], s1.entries@[entry as int]));
                        },
                        _ => {},
                    }
                }
                let ch = self.widgets@[u].children@;
                if s1.container_ok(u) && !s1.almost_removed(u, idx) {
                    assert forall|j: int| 0 <= j < self.shown(u).len() implies #[trigger] self.child_ok(u, j) by {
                        assert(s1.child_ok(u, j));
                        let c = ch[j] as int;
                        assert(same_but_alive(self.widgets@[c], s1.widgets@[c]));
                        assert(u < self.widgets.len());
                        assert(s1.widgets@[c].role->parent == u as usize);
                        if !self.alive(c) {
                            if c == x {
                                assert(false);
                            } else {
                                assert(s1.alive(c));
                                assert(!self.alive(self.widgets@[c].role->parent as int));
                                assert(false);
                            }
                        }
                    }
                } else {
                    assert forall|j: int| 0 <= j < ch.len() implies {
                        let y = #[trigger] ch[j] as int;
                        &&& 0 <= y < self.widgets@.len()
                        &&& self.widgets@[y].alive
                        &&& self.widgets@[y].role == (Role::Item {
                            entry: self.shown(u)[if j < idx {
                                j
                            } else {
                                j + 1
                            }],
                            parent: u as usize,
                        })
                    } by {
                        assert(s1.almost_removed(u, idx));
                        assert(ch == s1.widgets@[u].children@);
                        let c = ch[j] as int;
                        assert(same_but_alive(self.widgets@[c], s1.widgets@[c]));
                        assert(u < self.widgets.len());
                        assert(s1.widgets@[c].role->parent == u as usize);
                        if !self.alive(c) {
                            if c == x {
                                assert(false);
                            } else {
                                assert(s1.alive(c));
                                assert(!self.alive(self.widgets@[c].role->parent as int));
                                assert(false);
                            }
                        }
                    }
                }
            }
        }
            assert forall|k: int|
            0 <= k < targets.len() && targets[k] as int != s1.widgets@[x].role->parent as int
                && #[trigger] s1.almost_removed(targets[k] as int, idx) && self.alive(targets[k] as int)
                implies self.almost_removed(targets[k] as int, idx) by {
            assert(self.target_state(targets[k] as int, idx));
        }
    }

    /// `self` is `old` with `item`, the child of submenu `s` at `idx`,
    /// unlinked from it, nothing else changed.
    pub open spec fn unlinked_child(&self, old: MenuSystem, s: int, item: int, idx: int) -> bool {
        &&& 0 <= s < old.n_entries()
        &&& 0 <= item < old.n_entries()
        &&& s != item
        &&& 0 <= idx < old.entries@[s].children@.len()
        &&& old.entries@[s].children@[idx] == item as usize
        &&& self.entries@.len() == old.entries@.len()
        &&& forall|e: int| 0 <= e < self.n_entries() && e != s && e != item ==> #[trigger] self.entries@[e] == old.entries@[e]
        &&& self.entries@[s].children@ == old.entries@[s].children@.remove(idx)
        &&& self.entries@[s].id == old.entries@[s].id
        &&& self.entries@[s].kind == old.entries@[s].kind
        &&& self.entries@[s].owner == old.entries@[s].owner
        &&& self.entries@[s].text == old.entries@[s].text
        &&& self.entries@[s].enabled == old.entries@[s].enabled
        &&& self.entries@[s].checked == old.entries@[s].checked
        &&& self.entries@[s].projections == old.entries@[s].projections
        &&& self.entries@[item].owner == Owner::Detached
        &&& self.entries@[item].id == old.entries@[item].id
        &&& self.entries@[item].kind == old.entries@[item].kind
        &&& self.entries@[item].children == old.entries@[item].children
        &&& self.entries@[item].text == old.entries@[item].text
        &&& self.entries@[item].enabled == old.entries@[item].enabled
        &&& self.entries@[item].checked == old.entries@[item].checked
        &&& self.entries@[item].projections == old.entries@[item].projections
        &&& self.menus == old.menus
        &&& self.widgets == old.widgets
        &&& self.ids == old.ids
        &&& self.rank == old.rank
        &&& self.rank_bound == old.rank_bound
    }

    #[verifier::spinoff_prover]
    #[verifier::rlimit(60)]
    proof fn lemma_unlink_tree(&self, old: MenuSystem, s: int, item: int, idx: int)
        requires
            old.tree_ok(),
            self.unlinked_child(old, s, item, idx),
        ensures
            self.ranks_ok(),
            self.children_ok(),
            self.menu_lists_ok(),
            self.ids_ok(),
    {
        let n = self.n_entries();
        assert(item < self.entries.len() && s < self.entries.len());
        let oc = old.entries@[s].children@;
        let nc = self.entries@[s].children@;
        old.lemma_child(s, idx);
        assert(self.ranks_ok()) by {
            reveal(MenuSystem::ranks_ok);
        }
        assert(self.children_ok()) by {
            reveal(MenuSystem::children_ok);
            assert forall|e: int, j: int|
                0 <= e < n && 0 <= j < self.entries@[e].children@.len() implies {
                    let c = #[trigger] self.entries@[e].children@[j] as int;
                    &&& 0 <= c < n
                    &&& self.entries@[c].owner == Owner::InSubmenu(e as usize)
                    &&& self.rank@[c] < self.rank@[e]
                } by {
                if e == s {
                    let oj = if j < idx { j } else { j + 1 };
                    assert(nc[j] == oc[oj]);
                    assert(old.entries@[oc[oj] as int].owner == Owner::InSubmenu(e as usize));
                    reveal(MenuSystem::owners_ok);
                    assert(oc[oj] != item as usize) by {
                        reveal(MenuSystem::owners_ok);
                        old.lemma_owner_clause(s);
                    }
                } else {
                    assert(self.entries@[e].children == old.entries@[e].children);
                    let c = old.entries@[e].children@[j] as int;
                    assert(old.entries@[c].owner == Owner::InSubmenu(e as usize));
                    assert(c != item);
                }
            }
        }
        assert(self.menu_lists_ok()) by {
            reveal(MenuSystem::menu_lists_ok);
            assert forall|m: int, j: int|
                0 <= m < self.menus@.len() && 0 <= j < self.menus@[m].entries@.len() implies {
                    let c = #[trigger] self.menus@[m].entries@[j] as int;
                    &&& 0 <= c < n
                    &&& self.entries@[c].owner == Owner::InMenu(m as usize)
                } by {
                let c = self.menus@[m].entries@[j] as int;
                assert(old.entries@[c].owner == Owner::InMenu(m as usize));
            }
        }
        assert(self.ids_ok()) by {
            reveal(MenuSystem::ids_ok);
            assert forall|e: int| 0 <= e < n implies (#[trigger] self.entries@[e]).id == old.entries@[e].id by {}
        }
    }

    proof fn lemma_unlink_owner_one(&self, old: MenuSystem, s: int, item: int, idx: int, e: int)
        requires
            self.unlinked_child(old, s, item, idx),
            0 <= e < old.n_entries(),
            old.owner_clause(e),
            old.owner_clause(s),
            item < self.entries.len(),
            s < self.entries.len(),
        ensures
            self.owner_clause(e),
    {
        let oc = old.entries@[s].children@;
        if e == s {
            lemma_remove_no_duplicates(oc, idx);
        }
        if e != item {
            match self.entries@[e].owner {
                Owner::InSubmenu(p) => {
                    if p as int == s {
                        lemma_remove_contains(oc, idx, e as usize);
                    } else {
                        assert(self.entries@[p as int].children == old.entries@[p as int].children);
                    }
                },
                _ => {},
            }
        }
    }

    #[verifier::spinoff_prover]
    #[verifier::rlimit(60)]
    proof fn lemma_unlink_owners(&self, old: MenuSystem, s: int, item: int, idx: int)
        requires
            old.tree_ok(),
            self.unlinked_child(old, s, item, idx),
        ensures
            self.owners_ok(),
    {
        assert(item < self.entries.len() && s < self.entries.len());
        old.lemma_owner_clause(s);
        assert forall|e: int| 0 <= e < self.n_entries() implies #[trigger] self.owner_clause(e) by {
            old.lemma_owner_clause(e);
            self.lemma_unlink_owner_one(old, s, item, idx, e);
        }
        reveal(MenuSystem::owners_ok);
        assert forall|e: int| 0 <= e < self.n_entries() implies {
            &&& (#[trigger] self.entries@[e]).children@.no_duplicates()
            &&& self.entries@[e].kind != ItemKind::Submenu ==> self.entries@[e].children@.len() == 0
            &&& match self.entries@[e].owner {
                Owner::InSubmenu(p) => p < self.n_entries() && self.entries@[p as int].children@.contains(e as usize),
                Owner::InMenu(m) => m < self.menus@.len() && self.menus@[m as int].entries@.contains(e as usize),
                Owner::Detached => true,
            }
        } by {
            assert(self.owner_clause(e));
        }
    }

    #[verifier::spinoff_prover]
    #[verifier::rlimit(60)]
    proof fn lemma_unlink_natives(&self, old: MenuSystem, s: int, item: int, idx: int, targets: Seq<usize>)
        requires
            old.inv_except(Set::new(|h: int| (exists|i: int| 0 <= i < targets.len() && targets[i] as int == h))),
            self.unlinked_child(old, s, item, idx),
            forall|h: int| #[trigger] old.alive(h) && old.widgets@[h].role is Item && old.widgets@[h].role->entry == s as usize
                ==> exists|k: int| 0 <= k < targets.len() && targets[k] as int == h,
            forall|k: int| 0 <= k < targets.len() ==> (#[trigger] old.widgets@[targets[k] as int]).role is Item && old.widgets@[targets[k] as int].role->entry == s as usize && targets[k] < old.widgets@.len(),
            forall|k: int| 0 <= k < targets.len() ==> !old.alive(targets[k] as int) || #[trigger] old.almost_removed(targets[k] as int, idx),
        ensures
            self.widgets_registered(),
            self.projections_ok(),
            self.menus_ok(),
            self.containers_ok_except(Set::empty()),
    {
        let n = self.n_entries();
        assert(item < self.entries.len() && s < self.entries.len());
        assert forall|e: int| 0 <= e < n implies (#[trigger] self.entries@[e]).projections == old.entries@[e].projections by {}
        assert(self.widgets_registered()) by {
            reveal(MenuSystem::widgets_registered);
            assert forall|h: int| #[trigger] self.alive(h) implies self.role_ok(h) && self.registered(h) by {
                assert(old.alive(h));
                match self.widgets@[h].role {
                    Role::Item { entry, .. } => {
                        assert(self.entries@[entry as int].projections == old.entries@[entry as int].projections);
                    },
                    _ => {},
                }
            }
        }
        assert(self.projections_ok()) by {
            reveal(MenuSystem::projections_ok);
            assert forall|e: int, k: int|
                0 <= e < n && 0 <= k < self.entries@[e].projections@.len()
                    implies #[trigger] self.projection_ok(e, k) by {
                assert(old.projection_ok(e, k));
            }
        }
        assert(self.menus_ok()) by {
            reveal(MenuSystem::menus_ok);
            assert forall|m: int| 0 <= m < self.menus@.len() implies #[trigger] self.menu_ok(m) by {
                assert(old.menu_ok(m));
            }
        }
        let tset = Set::new(|h: int| (exists|i: int| 0 <= i < targets.len() && targets[i] as int == h));
        assert(self.containers_ok_except(Set::empty())) by {
            reveal(MenuSystem::containers_ok_except);
            reveal(MenuSystem::widgets_registered);
            assert forall|h: int| #[trigger] self.alive(h) && !Set::<int>::empty().contains(h) implies self.container_ok(h) by {
                assert(old.alive(h));
                assert(h < old.widgets.len());
                assert(old.registered(h));
                assert(old.role_ok(h));
                let is_target = match self.widgets@[h].role {
                    Role::Item { entry, .. } => entry as int == s,
                    _ => false,
                };
                if is_target {
                    assert(s < self.entries.len());
                    let k = choose|k: int| 0 <= k < targets.len() && targets[k] as int == h;
                    assert(old.almost_removed(targets[k] as int, idx));
                    assert(old.almost_removed(h, idx));
                    let oc = old.entries@[s].children@;
                    assert(old.shown(h) == oc);
                    assert(self.shown(h) == oc.remove(idx));
                    assert forall|j: int| 0 <= j < self.shown(h).len() implies #[trigger] self.child_ok(h, j) by {
                        let c = self.widgets@[h].children@[j] as int;
                        assert(self.widgets@[h].children@[j] == old.widgets@[h].children@[j]);
                    }
                } else {
                    assert(!tset.contains(h)) by {
                        if tset.contains(h) {
                            let i = choose|i: int| 0 <= i < targets.len() && targets[i] as int == h;
                            assert(old.widgets@[targets[i] as int].role is Item);
                            assert(s < self.entries.len());
                        }
                    }
                    assert(old.container_ok(h));
                    match self.widgets@[h].role {
                        Role::Item { entry, .. } => {
                            assert(self.entries@[entry as int].children == old.entries@[entry as int].children);
                        },
                        _ => {},
                    }
                    assert(self.shown(h) == old.shown(h));
                    assert forall|j: int| 0 <= j < self.shown(h).len() implies #[trigger] self.child_ok(h, j) by {
                        assert(old.child_ok(h, j));
                    }
                }
            }
        }
    }


    /// The position of `item` among the children of `s`, found by
    /// identifier.
    fn child_position(&self, s: usize, item: usize) -> (r: Option<usize>)
        requires
            self.wf(),
            (s as int) < self.n_entries(),
            (item as int) < self.n_entries(),
        ensures
            match r {
                Some(i) => i < self.entries@[s as int].children@.len() && self.entries@[s as int].children@[i as int] == item,
                None => !self.entries@[s as int].children@.contains(item),
            },
    {
        let key = self.entries[item].id;
        let n = self.entries[s].children.len();
        let mut j: usize = 0;
        while j < n
            invariant
                0 <= j <= n,
                self.wf(),
                (s as int) < self.n_entries(),
                (item as int) < self.n_entries(),
                n == self.entries@[s as int].children@.len(),
                key == self.entries@[item as int].id,
                forall|i: int| 0 <= i < j ==> #[trigger] self.entries@[s as int].children@[i] != item,
            decreases n - j,
        {
            let c = self.entries[s].children[j];
            proof {
                self.lemma_child(s as int, j as int);
            }
            if self.entries[c].id == key {
                proof {
                    reveal(MenuSystem::ids_ok);
                    assert(c < self.entries.len());
                }
                return Some(j);
            }
            j = j + 1;
        }
        None
    }

    /// No submenu is its own child.
    proof fn lemma_not_own_child(&self, s: int, j: int)
        requires
            self.tree_ok(),
            0 <= s < self.n_entries(),
            0 <= j < self.entries@[s].children@.len(),
        ensures
            self.entries@[s].children@[j] as int != s,
    {
        self.lemma_child(s, j);
    }

    proof fn lemma_shown_no_duplicates(&self, t: int)
        requires
            self.tree_ok(),
            self.widgets_registered(),
            self.alive(t),
        ensures
            self.shown(t).no_duplicates(),
    {
        reveal(MenuSystem::widgets_registered);
        assert(self.role_ok(t));
        match self.widgets@[t].role {
            Role::Item { entry, .. } => {
                self.lemma_owner_clause(entry as int);
            },
            Role::Bar { menu } => {
                reveal(MenuSystem::menu_lists_ok);
                assert(self.menus@[menu as int].entries@.no_duplicates());
            },
        }
    }

    proof fn lemma_almost_after_remove(&self, s2: MenuSystem, s1: MenuSystem, t: int, x: int, idx: int)
        requires
            s1.container_ok(t),
            s1.alive(t),
            0 <= idx < s1.shown(t).len(),
            s1.widgets@[t].children@[idx] as int == x,
            s2.same_logic(s1),
            s2.menus == s1.menus,
            s2.widgets@.len() == s1.widgets@.len(),
            forall|h: int| 0 <= h < s2.widgets@.len() ==> same_but_alive(#[trigger] s2.widgets@[h], s1.widgets@[h]),
            forall|h: int|
                #[trigger] s1.alive(h) && !s2.alive(h) ==> h >= x && (h == x || (s2.widgets@[h].role is Item
                    && !s2.alive(s2.widgets@[h].role->parent as int))),
            s2.alive(t),
            self.entries == s2.entries,
            self.menus == s2.menus,
            self.widgets@.len() == s2.widgets@.len(),
            forall|h: int| 0 <= h < self.widgets@.len() && h != t ==> #[trigger] self.widgets@[h] == s2.widgets@[h],
            same_but_children(self.widgets@[t], s2.widgets@[t]),
            self.widgets@[t].children@ == s2.widgets@[t].children@.remove(idx),
            s1.widgets_registered(),
            s1.shown(t).no_duplicates(),
        ensures
            self.almost_removed(t, idx),
            self.alive(t),
    {
        reveal(MenuSystem::widgets_registered);
        assert(s1.role_ok(t));
        assert(self.shown(t) == s1.shown(t)) by {
            match self.widgets@[t].role {
                Role::Item { entry, .. } => {
                    assert(same_but_projections(s2.entries@[entry as int], s1.entries@[entry as int]));
                },
                _ => {},
            }
        }
        let ch1 = s1.widgets@[t].children@;
        let ch = self.widgets@[t].children@;
        assert(s2.widgets@[t].children@ == ch1);
        assert forall|j: int| 0 <= j < ch.len() implies {
            let y = #[trigger] ch[j] as int;
            &&& 0 <= y < self.widgets@.len()
            &&& self.widgets@[y].alive
            &&& self.widgets@[y].role == (Role::Item {
                entry: self.shown(t)[if j < idx {
                    j
                } else {
                    j + 1
                }],
                parent: t as usize,
            })
        } by {
            let oj = if j < idx { j } else { j + 1 };
            assert(ch[j] == ch1[oj]);
            assert(s1.child_ok(t, oj));
            let c = ch1[oj] as int;
            assert(c != x) by {
                assert(oj != idx);
                if c == x {
                    assert(s1.child_ok(t, idx));
                    assert(s1.shown(t)[oj] == s1.shown(t)[idx]);
                }
            }
            assert(same_but_alive(s2.widgets@[c], s1.widgets@[c]));
            assert(t < self.widgets.len());
            assert(c != t);
            if !s2.alive(c) {
                assert(s1.alive(c));
                assert(false);
            }
            assert(self.widgets@[c] == s2.widgets@[c]);
        }
    }


    /// Removes `item` from submenu `s`, found by identifier, and destroys
    /// its native widgets under every native container of `s`.
    pub fn remove_from_submenu(&mut self, s: usize, item: usize) -> (r: Result<(), MenuError>)
        requires
            old(self).wf(),
            (s as int) < old(self).n_entries(),
            (item as int) < old(self).n_entries(),
            old(self).entries@[s as int].kind == ItemKind::Submenu,
        ensures
            final(self).wf(),
            !old(self).entries@[s as int].children@.contains(item) ==> r == Err::<(), MenuError>(MenuError::NotAChildOfThisMenu) && *final(self) == *old(self),
            old(self).entries@[s as int].children@.contains(item) ==> {
                &&& r is Ok
                &&& final(self).entries@.len() == old(self).entries@.len()
                &&& exists|i: int| 0 <= i < old(self).entries@[s as int].children@.len() && old(self).entries@[s as int].children@[i] == item
                    && #[trigger] final(self).entries@[s as int].children@ == old(self).entries@[s as int].children@.remove(i)
                &&& final(self).entries@[item as int].owner == Owner::Detached
                &&& forall|e: int| 0 <= e < final(self).n_entries() && e != s && e != item ==> same_but_projections(#[trigger] final(self).entries@[e], old(self).entries@[e])
                &&& final(self).same_menu_entries(*old(self))
            },
            final(self).contents_kept(*old(self)),
            final(self).destroys_only(*old(self)),
    {
        let idx = match self.child_position(s, item) {
            Some(i) => i,
            None => {
                return Err(MenuError::NotAChildOfThisMenu);
            },
        };
        let ghost s0 = *self;
        proof {
            self.lemma_child(s as int, idx as int);
            assert(s != item) by {
                self.lemma_child(s as int, idx as int);
                reveal(MenuSystem::children_ok);
            }
        }
        let targets = self.containers_of(s);
        let ghost tset = Set::new(|h: int| (exists|i: int| 0 <= i < targets@.len() && targets@[i] as int == h));
        proof {
            reveal(MenuSystem::containers_ok_except);
            reveal(MenuSystem::projections_ok);
            reveal(MenuSystem::widgets_registered);
            assert forall|k: int| 0 <= k < targets@.len() implies (#[trigger] self.widgets@[targets@[k] as int]).role is Item && self.widgets@[targets@[k] as int].role->entry == s && targets@[k] < self.widgets@.len() by {
                assert(self.projection_ok(s as int, k));
            }
            assert forall|h: int| #[trigger] self.alive(h) && self.widgets@[h].role is Item && self.widgets@[h].role->entry == s
                implies exists|k: int| 0 <= k < targets@.len() && targets@[k] as int == h by {
                assert(self.registered(h));
                let parent = self.widgets@[h].role->parent;
                let k = choose|k: int| 0 <= k < self.entries@[s as int].projections@.len() && #[trigger] self.entries@[s as int].projections@[k] == (Projection { parent, widget: h as usize });
                assert(h < self.widgets.len());
                assert(targets@[k] as int == h);
            }
            assert(self.inv_except(tset));
            assert forall|k: int| 0 <= k < targets@.len() implies #[trigger] self.target_state(targets@[k] as int, idx as int) by {}
        }
        let n = targets.len();
        let mut k: usize = 0;
        while k < n
            invariant
                self.destroys_only(s0),
                forall|h: int| #[trigger] self.alive(h) ==> s0.alive(h),
                0 <= k <= n,
                n == targets@.len(),
                (s as int) < self.n_entries(),
                (item as int) < self.n_entries(),
                (idx as int) < s0.entries@[s as int].children@.len(),
                s0.entries@[s as int].children@[idx as int] == item,
                s != item,
                s0.wf(),
                tset == Set::new(|h: int| (exists|i: int| 0 <= i < targets@.len() && targets@[i] as int == h)),
                self.inv_except(tset),
                self.same_logic(s0),
                self.menus == s0.menus,
                forall|k2: int| 0 <= k2 < targets@.len() ==> (#[trigger] self.widgets@[targets@[k2] as int]).role is Item && self.widgets@[targets@[k2] as int].role->entry == s && targets@[k2] < self.widgets@.len(),
                forall|h: int| #[trigger] self.alive(h) && self.widgets@[h].role is Item && self.widgets@[h].role->entry == s
                    ==> exists|k2: int| 0 <= k2 < targets@.len() && targets@[k2] as int == h,
                forall|k2: int| 0 <= k2 < targets@.len() ==> #[trigger] self.target_state(targets@[k2] as int, idx as int),
                forall|k2: int| 0 <= k2 < k ==> !self.alive(targets@[k2] as int) || #[trigger] self.almost_removed(targets@[k2] as int, idx as int),
            decreases n - k,
        {
            let t = targets[k];
            proof {
                assert(self.widgets@[targets@[k as int] as int].role is Item);
            }
            if self.widgets[t].alive && self.widgets[t].children.len() == self.shown_len(t) {
                let ghost s1 = *self;
                proof {
                    assert(self.target_state(t as int, idx as int));
                    assert(!self.almost_removed(t as int, idx as int));
                    assert(self.container_ok(t as int));
                    assert(same_but_projections(self.entries@[s as int], s0.entries@[s as int]));
                    assert(self.shown(t as int) == self.entries@[s as int].children@);
                    assert(self.child_ok(t as int, idx as int));
                    assert(tset.contains(t as int));
                    self.lemma_shown_no_duplicates(t as int);
                }
                let x = self.widgets[t].children[idx];
                self.destroy_subtree(x, Ghost(tset));
                let ghost s2 = *self;
                proof {
                    self.lemma_targets_after_destroy(s1, targets@, x as int, idx as int);
                    assert(self.alive(t as int)) by {
                        reveal(MenuSystem::widgets_registered);
                        assert(s1.alive(x as int));
                        assert(s1.role_ok(x as int));
                        if !self.alive(t as int) {
                            assert(s1.alive(t as int));
                        }
                    }
                }
                self.widgets[t].children.remove(idx);
                proof {
                    self.lemma_children_frame(s2, t as int, tset);
                    assert(self.destroys_only(s2));
                    Self::lemma_destroys_step(s2, s1, s0);
                    Self::lemma_destroys_step(*self, s2, s0);
                    assert forall|h: int| #[trigger] self.alive(h) implies s0.alive(h) by {
                        assert(s2.alive(h));
                        assert(s1.alive(h));
                    }
                    self.lemma_almost_after_remove(s2, s1, t as int, x as int, idx as int);
                    Self::lemma_same_logic_trans(*self, s2, s1);
                    Self::lemma_same_logic_trans(*self, s1, s0);
                    assert forall|k2: int| 0 <= k2 < targets@.len() implies (#[trigger] self.widgets@[targets@[k2] as int]).role is Item && self.widgets@[targets@[k2] as int].role->entry == s && targets@[k2] < self.widgets@.len() by {
                        let u = targets@[k2] as int;
                        assert(same_but_alive(s2.widgets@[u], s1.widgets@[u]));
                    }
                    assert forall|h: int| #[trigger] self.alive(h) && self.widgets@[h].role is Item && self.widgets@[h].role->entry == s
                        implies exists|k2: int| 0 <= k2 < targets@.len() && targets@[k2] as int == h by {
                        assert(s2.alive(h));
                        assert(s1.alive(h));
                        assert(same_but_alive(s2.widgets@[h], s1.widgets@[h]));
                    }
                    assert forall|k2: int| 0 <= k2 < targets@.len() implies #[trigger] self.target_state(targets@[k2] as int, idx as int) by {
                        let u = targets@[k2] as int;
                        if u != t as int {
                            assert(s2.target_state(u, idx as int));
                            assert(self.widgets@[u] == s2.widgets@[u]);
                            assert(self.shown(u) == s2.shown(u));
                            if s2.container_ok(u) {
                                assert forall|j: int| 0 <= j < self.shown(u).len() implies #[trigger] self.child_ok(u, j) by {
                                    assert(s2.child_ok(u, j));
                                    let c = self.widgets@[u].children@[j] as int;
                                    if c == t as int {
                                        s0.lemma_not_own_child(s as int, j);
                                    }
                                    assert(self.widgets@[c] == s2.widgets@[c]);
                                }
                            } else if s2.almost_removed(u, idx as int) {
                                let ch = self.widgets@[u].children@;
                                assert forall|j: int| 0 <= j < ch.len() implies {
                                    let y = #[trigger] ch[j] as int;
                                    &&& 0 <= y < self.widgets@.len()
                                    &&& self.widgets@[y].alive
                                    &&& self.widgets@[y].role == (Role::Item {
                                        entry: self.shown(u)[if j < idx as int { j } else { j + 1 }],
                                        parent: u as usize,
                                    })
                                } by {
                                    let c = ch[j] as int;
                                    assert(ch[j] == s2.widgets@[u].children@[j]);
                                    if c == t as int {
                                        let oj = if j < idx as int { j } else { j + 1 };
                                        s0.lemma_not_own_child(s as int, oj);
                                    }
                                    assert(self.widgets@[c] == s2.widgets@[c]);
                                }
                            }
                        }
                    }
                    assert forall|k2: int| 0 <= k2 < k + 1 implies !self.alive(targets@[k2] as int) || #[trigger] self.almost_removed(targets@[k2] as int, idx as int) by {
                        let u = targets@[k2] as int;
                        if u != t as int && self.alive(u) {
                            assert(self.widgets@[u] == s2.widgets@[u]);
                            assert(s2.alive(u));
                            assert(s1.alive(u));
                            assert(s1.almost_removed(u, idx as int));
                            assert(s2.almost_removed(u, idx as int));
                            assert(self.widgets@[u] == s2.widgets@[u]);
                            assert(self.shown(u) == s2.shown(u));
                            let ch = self.widgets@[u].children@;
                            assert forall|j: int| 0 <= j < ch.len() implies {
                                let y = #[trigger] ch[j] as int;
                                &&& 0 <= y < self.widgets@.len()
                                &&& self.widgets@[y].alive
                                &&& self.widgets@[y].role == (Role::Item {
                                    entry: self.shown(u)[if j < idx as int { j } else { j + 1 }],
                                    parent: u as usize,
                                })
                            } by {
                                let c = ch[j] as int;
                                if c == t as int {
                                    let oj = if j < idx as int { j } else { j + 1 };
                                    s0.lemma_not_own_child(s as int, oj);
                                }
                                assert(self.widgets@[c] == s2.widgets@[c]);
                            }
                        } else if u == t as int && k2 < k {
                            assert(s1.target_state(u, idx as int));
                        }
                    }
                }
            } else {
                proof {
                    assert(self.target_state(t as int, idx as int));
                    if self.alive(t as int) {
                        assert(!self.container_ok(t as int) || self.almost_removed(t as int, idx as int));
                    }
                }
            }
            k = k + 1;
        }
        let ghost s3 = *self;
        self.entries[s].children.remove(idx);
        self.entries[item].owner = Owner::Detached;
        proof {
            assert forall|e: int| 0 <= e < self.entries@.len() implies same_content(#[trigger] self.entries@[e], s0.entries@[e]) by {
                assert(same_content(self.entries@[e], s3.entries@[e]));
                assert(same_but_projections(s3.entries@[e], s0.entries@[e]));
            }
            assert(self.contents_kept(s0));
            assert(same_but_projections(s3.entries@[s as int], s0.entries@[s as int]));
            assert(same_but_projections(s3.entries@[item as int], s0.entries@[item as int]));
            assert(self.unlinked_child(s3, s as int, item as int, idx as int));
            s3.lemma_same_logic_tree(s0);
            s3.lemma_tree_frame(s0);
            self.lemma_unlink_tree(s3, s as int, item as int, idx as int);
            self.lemma_unlink_owners(s3, s as int, item as int, idx as int);
            self.lemma_unlink_natives(s3, s as int, item as int, idx as int, targets@);
            assert forall|e: int| 0 <= e < self.n_entries() && e != s && e != item implies same_but_projections(#[trigger] self.entries@[e], s0.entries@[e]) by {
                assert(same_but_projections(s3.entries@[e], s0.entries@[e]));
            }
            assert(self.entries@[s as int].children@ == s0.entries@[s as int].children@.remove(idx as int));
        }
        Ok(())
    }


    /// The position of `item` among the top-level entries of menu `m`,
    /// found by identifier.
    fn menu_position(&self, m: usize, item: usize) -> (r: Option<usize>)
        requires
            self.wf(),
            (m as int) < self.menus@.len(),
            (item as int) < self.n_entries(),
        ensures
            match r {
                Some(i) => i < self.menus@[m as int].entries@.len() && self.menus@[m as int].entries@[i as int] == item,
                None => !self.menus@[m as int].entries@.contains(item),
            },
    {
        let key = self.entries[item].id;
        let n = self.menus[m].entries.len();
        let mut j: usize = 0;
        while j < n
            invariant
                0 <= j <= n,
                self.wf(),
                (m as int) < self.menus@.len(),
                (item as int) < self.n_entries(),
                n == self.menus@[m as int].entries@.len(),
                key == self.entries@[item as int].id,
                forall|i: int| 0 <= i < j ==> #[trigger] self.menus@[m as int].entries@[i] != item,
            decreases n - j,
        {
            let c = self.menus[m].entries[j];
            proof {
                reveal(MenuSystem::menu_lists_ok);
                assert(self.menus@[m as int].entries@[j as int] == c);
            }
            if self.entries[c].id == key {
                proof {
                    reveal(MenuSystem::ids_ok);
                    assert(c < self.entries.len());
                }
                return Some(j);
            }
            j = j + 1;
        }
        None
    }

    /// `self` is `old` with `item`, the top-level entry of menu `m` at
    /// `idx`, unlinked from it, nothing else changed.
    pub open spec fn unlinked_top(&self, old: MenuSystem, m: int, item: int, idx: int) -> bool {
        &&& 0 <= m < old.menus@.len()
        &&& 0 <= item < old.n_entries()
        &&& 0 <= idx < old.menus@[m].entries@.len()
        &&& old.menus@[m].entries@[idx] == item as usize
        &&& self.entries@.len() == old.entries@.len()
        &&& forall|e: int| 0 <= e < self.n_entries() && e != item ==> #[trigger] self.entries@[e] == old.entries@[e]
        &&& self.entries@[item].owner == Owner::Detached
        &&& self.entries@[item].id == old.entries@[item].id
        &&& self.entries@[item].kind == old.entries@[item].kind
        &&& self.entries@[item].children == old.entries@[item].children
        &&& self.entries@[item].text == old.entries@[item].text
        &&& self.entries@[item].enabled == old.entries@[item].enabled
        &&& self.entries@[item].checked == old.entries@[item].checked
        &&& self.entries@[item].projections == old.entries@[item].projections
        &&& self.menus@.len() == old.menus@.len()
        &&& forall|i: int| 0 <= i < self.menus@.len() && i != m ==> #[trigger] self.menus@[i] == old.menus@[i]
        &&& self.menus@[m].entries@ == old.menus@[m].entries@.remove(idx)
        &&& self.menus@[m].bars == old.menus@[m].bars
        &&& self.menus@[m].context == old.menus@[m].context
        &&& self.widgets == old.widgets
        &&& self.ids == old.ids
        &&& self.rank == old.rank
        &&& self.rank_bound == old.rank_bound
    }

    #[verifier::spinoff_prover]
    #[verifier::rlimit(80)]
    proof fn lemma_unlink_top_tree(&self, old: MenuSystem, m: int, item: int, idx: int, targets: Seq<usize>)
        requires
            old.tree_ok(),
            old.natives_ok(),
            old.containers_ok_except(Set::new(|h: int| (exists|i: int| 0 <= i < targets.len() && targets[i] as int == h))),
            self.unlinked_top(old, m, item, idx),
            forall|h: int| #[trigger] old.alive(h) && old.widgets@[h].role == (Role::Bar { menu: m as usize })
                ==> exists|k: int| 0 <= k < targets.len() && targets[k] as int == h,
            forall|k: int| 0 <= k < targets.len() ==> (#[trigger] old.widgets@[targets[k] as int]).role == (Role::Bar { menu: m as usize }) && targets[k] < old.widgets@.len(),
            forall|k: int| 0 <= k < targets.len() ==> !old.alive(targets[k] as int) || #[trigger] old.almost_removed(targets[k] as int, idx),
        ensures
            self.tree_ok(),
    {
        let n = self.n_entries();
        assert(item < self.entries.len() && m < self.menus.len());
        let ol = old.menus@[m].entries@;
        assert(self.ranks_ok()) by {
            reveal(MenuSystem::ranks_ok);
        }
        assert(self.children_ok()) by {
            reveal(MenuSystem::children_ok);
            reveal(MenuSystem::menu_lists_ok);
            assert(old.entries@[item].owner == Owner::InMenu(m as usize));
            assert forall|e: int, j: int|
                0 <= e < n && 0 <= j < self.entries@[e].children@.len() implies {
                    let c = #[trigger] self.entries@[e].children@[j] as int;
                    &&& 0 <= c < n
                    &&& self.entries@[c].owner == Owner::InSubmenu(e as usize)
                    &&& self.rank@[c] < self.rank@[e]
                } by {
                assert(self.entries@[e].children == old.entries@[e].children);
                let c = old.entries@[e].children@[j] as int;
                assert(old.entries@[c].owner == Owner::InSubmenu(e as usize));
                assert(c != item);
            }
        }
        assert(self.ids_ok()) by {
            reveal(MenuSystem::ids_ok);
            assert forall|e: int| 0 <= e < n implies (#[trigger] self.entries@[e]).id == old.entries@[e].id by {}
        }
        assert(self.menu_lists_ok()) by {
            reveal(MenuSystem::menu_lists_ok);
            assert forall|i: int, j: int|
                0 <= i < self.menus@.len() && 0 <= j < self.menus@[i].entries@.len() implies {
                    let c = #[trigger] self.menus@[i].entries@[j] as int;
                    &&& 0 <= c < n
                    &&& self.entries@[c].owner == Owner::InMenu(i as usize)
                } by {
                if i == m {
                    let oj = if j < idx { j } else { j + 1 };
                    assert(self.menus@[m].entries@[j] == ol[oj]);
                    assert(old.entries@[ol[oj] as int].owner == Owner::InMenu(i as usize));
                    assert(ol.no_duplicates());
                    assert(ol[oj] != item as usize);
                } else {
                    let c = self.menus@[i].entries@[j] as int;
                    assert(old.entries@[c].owner == Owner::InMenu(i as usize));
                    assert(c != item) by {
                        assert(old.entries@[item].owner == Owner::InMenu(m as usize));
                    }
                }
            }
            assert forall|i: int| 0 <= i < self.menus@.len() implies (#[trigger] self.menus@[i]).entries@.no_duplicates() by {
                if i == m {
                    lemma_remove_no_duplicates(ol, idx);
                }
            }
        }
        assert(self.owners_ok()) by {
            assert forall|e: int| 0 <= e < n implies #[trigger] self.owner_clause(e) by {
                old.lemma_owner_clause(e);
                if e != item {
                    match self.entries@[e].owner {
                        Owner::InSubmenu(p) => {
                            assert(self.entries@[p as int].children == old.entries@[p as int].children);
                        },
                        Owner::InMenu(i) => {
                            if i as int == m {
                                reveal(MenuSystem::menu_lists_ok);
                                assert(ol[idx] == item as usize);
                                lemma_remove_contains(ol, idx, e as usize);
                            }
                        },
                        _ => {},
                    }
                }
            }
            reveal(MenuSystem::owners_ok);
            assert forall|e: int| 0 <= e < n implies {
                &&& (#[trigger] self.entries@[e]).children@.no_duplicates()
                &&& self.entries@[e].kind != ItemKind::Submenu ==> self.entries@[e].children@.len() == 0
                &&& match self.entries@[e].owner {
                    Owner::InSubmenu(p) => p < self.n_entries() && self.entries@[p as int].children@.contains(e as usize),
                    Owner::InMenu(mm) => mm < self.menus@.len() && self.menus@[mm as int].entries@.contains(e as usize),
                    Owner::Detached => true,
                }
            } by {
                assert(self.owner_clause(e));
            }
        }
    }

    #[verifier::spinoff_prover]
    #[verifier::rlimit(80)]
    proof fn lemma_unlink_top_natives(&self, old: MenuSystem, m: int, item: int, idx: int, targets: Seq<usize>)
        requires
            old.tree_ok(),
            old.natives_ok(),
            old.containers_ok_except(Set::new(|h: int| (exists|i: int| 0 <= i < targets.len() && targets[i] as int == h))),
            self.unlinked_top(old, m, item, idx),
            forall|h: int| #[trigger] old.alive(h) && old.widgets@[h].role == (Role::Bar { menu: m as usize })
                ==> exists|k: int| 0 <= k < targets.len() && targets[k] as int == h,
            forall|k: int| 0 <= k < targets.len() ==> (#[trigger] old.widgets@[targets[k] as int]).role == (Role::Bar { menu: m as usize }) && targets[k] < old.widgets@.len(),
            forall|k: int| 0 <= k < targets.len() ==> !old.alive(targets[k] as int) || #[trigger] old.almost_removed(targets[k] as int, idx),
        ensures
            self.natives_ok(),
            self.containers_ok_except(Set::empty()),
    {
        let n = self.n_entries();
        assert(item < self.entries.len() && m < self.menus.len());
        let ol = old.menus@[m].entries@;
        assert forall|e: int| 0 <= e < n implies (#[trigger] self.entries@[e]).projections == old.entries@[e].projections by {}
        assert(self.widgets_registered()) by {
            reveal(MenuSystem::widgets_registered);
            assert forall|h: int| #[trigger] self.alive(h) implies self.role_ok(h) && self.registered(h) by {
                assert(old.alive(h));
                assert(old.registered(h));
                match self.widgets@[h].role {
                    Role::Item { entry, .. } => {
                        assert(self.entries@[entry as int].projections == old.entries@[entry as int].projections);
                    },
                    Role::Bar { menu } => {
                        if menu as int != m {
                            assert(self.menus@[menu as int] == old.menus@[menu as int]);
                        }
                    },
                }
            }
        }
        assert(self.projections_ok()) by {
            reveal(MenuSystem::projections_ok);
            assert forall|e: int, k: int|
                0 <= e < n && 0 <= k < self.entries@[e].projections@.len()
                    implies #[trigger] self.projection_ok(e, k) by {
                assert(old.projection_ok(e, k));
            }
        }
        assert(self.menus_ok()) by {
            reveal(MenuSystem::menus_ok);
            assert forall|i: int| 0 <= i < self.menus@.len() implies #[trigger] self.menu_ok(i) by {
                assert(old.menu_ok(i));
            }
        }
        let tset = Set::new(|h: int| (exists|i: int| 0 <= i < targets.len() && targets[i] as int == h));
        assert(self.containers_ok_except(Set::empty())) by {
            reveal(MenuSystem::containers_ok_except);
            reveal(MenuSystem::widgets_registered);
            assert forall|h: int| #[trigger] self.alive(h) && !Set::<int>::empty().contains(h) implies self.container_ok(h) by {
                assert(old.alive(h));
                assert(h < old.widgets.len());
                assert(old.role_ok(h));
                if self.widgets@[h].role == (Role::Bar { menu: m as usize }) {
                    let k = choose|k: int| 0 <= k < targets.len() && targets[k] as int == h;
                    assert(old.almost_removed(targets[k] as int, idx));
                    assert(old.almost_removed(h, idx));
                    assert(old.shown(h) == ol);
                    assert(self.shown(h) == ol.remove(idx));
                    assert forall|j: int| 0 <= j < self.shown(h).len() implies #[trigger] self.child_ok(h, j) by {
                        assert(self.widgets@[h].children@[j] == old.widgets@[h].children@[j]);
                    }
                } else {
                    assert(!tset.contains(h)) by {
                        if tset.contains(h) {
                            let i = choose|i: int| 0 <= i < targets.len() && targets[i] as int == h;
                            assert(old.widgets@[targets[i] as int].role == (Role::Bar { menu: m as usize }));
                            assert(m < self.menus.len());
                        }
                    }
                    assert(old.container_ok(h));
                    match self.widgets@[h].role {
                        Role::Item { entry, .. } => {
                            assert(self.entries@[entry as int].children == old.entries@[entry as int].children);
                        },
                        Role::Bar { menu } => {
                            assert(menu as int != m);
                            assert(self.menus@[menu as int] == old.menus@[menu as int]);
                        },
                    }
                    assert(self.shown(h) == old.shown(h));
                    assert forall|j: int| 0 <= j < self.shown(h).len() implies #[trigger] self.child_ok(h, j) by {
                        assert(old.child_ok(h, j));
                    }
                }
            }
        }
    }

    proof fn lemma_unlink_top(&self, old: MenuSystem, m: int, item: int, idx: int, targets: Seq<usize>)
        requires
            old.tree_ok(),
            old.natives_ok(),
            old.containers_ok_except(Set::new(|h: int| (exists|i: int| 0 <= i < targets.len() && targets[i] as int == h))),
            self.unlinked_top(old, m, item, idx),
            forall|h: int| #[trigger] old.alive(h) && old.widgets@[h].role == (Role::Bar { menu: m as usize })
                ==> exists|k: int| 0 <= k < targets.len() && targets[k] as int == h,
            forall|k: int| 0 <= k < targets.len() ==> (#[trigger] old.widgets@[targets[k] as int]).role == (Role::Bar { menu: m as usize }) && targets[k] < old.widgets@.len(),
            forall|k: int| 0 <= k < targets.len() ==> !old.alive(targets[k] as int) || #[trigger] old.almost_removed(targets[k] as int, idx),
        ensures
            self.wf(),
    {
        self.lemma_unlink_top_tree(old, m, item, idx, targets);
        self.lemma_unlink_top_natives(old, m, item, idx, targets);
    }

    /// Removes `item` from the top level of menu `m`, found by identifier,
    /// and destroys its native widgets under every native root of `m`.
    pub fn remove_from_menu(&mut self, m: usize, item: usize) -> (r: Result<(), MenuError>)
        requires
            old(self).wf(),
            (m as int) < old(self).menus@.len(),
            (item as int) < old(self).n_entries(),
        ensures
            final(self).wf(),
            !old(self).menus@[m as int].entries@.contains(item) ==> r == Err::<(), MenuError>(MenuError::NotAChildOfThisMenu) && *final(self) == *old(self),
            old(self).menus@[m as int].entries@.contains(item) ==> {
                &&& r is Ok
                &&& final(self).entries@.len() == old(self).entries@.len()
                &&& exists|i: int| 0 <= i < old(self).menus@[m as int].entries@.len() && old(self).menus@[m as int].entries@[i] == item
                    && #[trigger] final(self).menus@[m as int].entries@ == old(self).menus@[m as int].entries@.remove(i)
                &&& final(self).entries@[item as int].owner == Owner::Detached
                &&& forall|e: int| 0 <= e < final(self).n_entries() && e != item ==> same_but_projections(#[trigger] final(self).entries@[e], old(self).entries@[e])
                &&& forall|i: int| 0 <= i < final(self).menus@.len() && i != m ==> (#[trigger] final(self).menus@[i]).entries == old(self).menus@[i].entries
            },
            final(self).contents_kept(*old(self)),
            final(self).menus@.len() == old(self).menus@.len(),
            final(self).destroys_only(*old(self)),
    {
        let idx = match self.menu_position(m, item) {
            Some(i) => i,
            None => {
                return Err(MenuError::NotAChildOfThisMenu);
            },
        };
        let ghost s0 = *self;
        proof {
            reveal(MenuSystem::menu_lists_ok);
            assert(self.menus@[m as int].entries@[idx as int] == item);
        }
        let targets = self.roots_of(m);
        let ghost tset = Set::new(|h: int| (exists|i: int| 0 <= i < targets@.len() && targets@[i] as int == h));
        proof {
            reveal(MenuSystem::containers_ok_except);
            assert(self.inv_except(tset));
            assert forall|k: int| 0 <= k < targets@.len() implies #[trigger] self.target_state(targets@[k] as int, idx as int) by {}
        }
        let n = targets.len();
        let mut k: usize = 0;
        while k < n
            invariant
                self.destroys_only(s0),
                forall|h: int| #[trigger] self.alive(h) ==> s0.alive(h),
                0 <= k <= n,
                n == targets@.len(),
                (m as int) < self.menus@.len(),
                (item as int) < self.n_entries(),
                (idx as int) < s0.menus@[m as int].entries@.len(),
                s0.menus@[m as int].entries@[idx as int] == item,
                s0.wf(),
                tset == Set::new(|h: int| (exists|i: int| 0 <= i < targets@.len() && targets@[i] as int == h)),
                self.inv_except(tset),
                self.same_logic(s0),
                self.menus == s0.menus,
                forall|k2: int| 0 <= k2 < targets@.len() ==> (#[trigger] self.widgets@[targets@[k2] as int]).role == (Role::Bar { menu: m }) && targets@[k2] < self.widgets@.len(),
                forall|h: int| #[trigger] self.alive(h) && self.widgets@[h].role == (Role::Bar { menu: m })
                    ==> exists|k2: int| 0 <= k2 < targets@.len() && targets@[k2] as int == h,
                forall|k2: int| 0 <= k2 < targets@.len() ==> #[trigger] self.target_state(targets@[k2] as int, idx as int),
                forall|k2: int| 0 <= k2 < k ==> !self.alive(targets@[k2] as int) || #[trigger] self.almost_removed(targets@[k2] as int, idx as int),
            decreases n - k,
        {
            let t = targets[k];
            proof {
                assert(self.widgets@[targets@[k as int] as int].role == (Role::Bar { menu: m }));
            }
            if self.widgets[t].alive && self.widgets[t].children.len() == self.shown_len(t) {
                let ghost s1 = *self;
                proof {
                    assert(self.target_state(t as int, idx as int));
                    assert(!self.almost_removed(t as int, idx as int));
                    assert(self.container_ok(t as int));
                    assert(self.shown(t as int) == self.menus@[m as int].entries@);
                    assert(self.child_ok(t as int, idx as int));
                    assert(tset.contains(t as int));
                    self.lemma_shown_no_duplicates(t as int);
                }
                let x = self.widgets[t].children[idx];
                self.destroy_subtree(x, Ghost(tset));
                let ghost s2 = *self;
                proof {
                    self.lemma_targets_after_destroy(s1, targets@, x as int, idx as int);
                    assert(self.alive(t as int)) by {
                        reveal(MenuSystem::widgets_registered);
                        assert(s1.alive(x as int));
                        assert(s1.role_ok(x as int));
                        if !self.alive(t as int) {
                            assert(s1.alive(t as int));
                        }
                    }
                }
                self.widgets[t].children.remove(idx);
                proof {
                    self.lemma_children_frame(s2, t as int, tset);
                    assert(self.destroys_only(s2));
                    Self::lemma_destroys_step(s2, s1, s0);
                    Self::lemma_destroys_step(*self, s2, s0);
                    assert forall|h: int| #[trigger] self.alive(h) implies s0.alive(h) by {
                        assert(s2.alive(h));
                        assert(s1.alive(h));
                    }
                    self.lemma_almost_after_remove(s2, s1, t as int, x as int, idx as int);
                    Self::lemma_same_logic_trans(*self, s2, s1);
                    Self::lemma_same_logic_trans(*self, s1, s0);
                    assert forall|k2: int| 0 <= k2 < targets@.len() implies (#[trigger] self.widgets@[targets@[k2] as int]).role == (Role::Bar { menu: m }) && targets@[k2] < self.widgets@.len() by {
                        let u = targets@[k2] as int;
                        assert(same_but_alive(s2.widgets@[u], s1.widgets@[u]));
                    }
                    assert forall|h: int| #[trigger] self.alive(h) && self.widgets@[h].role == (Role::Bar { menu: m })
                        implies exists|k2: int| 0 <= k2 < targets@.len() && targets@[k2] as int == h by {
                        assert(s2.alive(h));
                        assert(s1.alive(h));
                        assert(same_but_alive(s2.widgets@[h], s1.widgets@[h]));
                    }
                    assert forall|k2: int| 0 <= k2 < targets@.len() implies #[trigger] self.target_state(targets@[k2] as int, idx as int) by {
                        let u = targets@[k2] as int;
                        if u != t as int {
                            assert(s2.target_state(u, idx as int));
                            assert(self.widgets@[u] == s2.widgets@[u]);
                            assert(self.shown(u) == s2.shown(u));
                            if s2.container_ok(u) {
                                assert forall|j: int| 0 <= j < self.shown(u).len() implies #[trigger] self.child_ok(u, j) by {
                                    assert(s2.child_ok(u, j));
                                    let c = self.widgets@[u].children@[j] as int;
                                    assert(c != t as int);
                                    assert(self.widgets@[c] == s2.widgets@[c]);
                                }
                            } else if s2.almost_removed(u, idx as int) {
                                let ch = self.widgets@[u].children@;
                                assert forall|j: int| 0 <= j < ch.len() implies {
                                    let y = #[trigger] ch[j] as int;
                                    &&& 0 <= y < self.widgets@.len()
                                    &&& self.widgets@[y].alive
                                    &&& self.widgets@[y].role == (Role::Item {
                                        entry: self.shown(u)[if j < idx as int { j } else { j + 1 }],
                                        parent: u as usize,
                                    })
                                } by {
                                    let c = ch[j] as int;
                                    assert(ch[j] == s2.widgets@[u].children@[j]);
                                    assert(c != t as int);
                                    assert(self.widgets@[c] == s2.widgets@[c]);
                                }
                            }
                        }
                    }
                    assert forall|k2: int| 0 <= k2 < k + 1 implies !self.alive(targets@[k2] as int) || #[trigger] self.almost_removed(targets@[k2] as int, idx as int) by {
                        let u = targets@[k2] as int;
                        if u != t as int && self.alive(u) {
                            assert(self.widgets@[u] == s2.widgets@[u]);
                            assert(s2.alive(u));
                            assert(s1.alive(u));
                            assert(s1.almost_removed(u, idx as int));
                            assert(s2.almost_removed(u, idx as int));
                            assert(self.widgets@[u] == s2.widgets@[u]);
                            assert(self.shown(u) == s2.shown(u));
                            let ch = self.widgets@[u].children@;
                            assert forall|j: int| 0 <= j < ch.len() implies {
                                let y = #[trigger] ch[j] as int;
                                &&& 0 <= y < self.widgets@.len()
                                &&& self.widgets@[y].alive
                                &&& self.widgets@[y].role == (Role::Item {
                                    entry: self.shown(u)[if j < idx as int { j } else { j + 1 }],
                                    parent: u as usize,
                                })
                            } by {
                                let c = ch[j] as int;
                                assert(c != t as int);
                                assert(self.widgets@[c] == s2.widgets@[c]);
                            }
                        } else if u == t as int && k2 < k {
                            assert(s1.target_state(u, idx as int));
                        }
                    }
                }
            } else {
                proof {
                    assert(self.target_state(t as int, idx as int));
                    if self.alive(t as int) {
                        assert(!self.container_ok(t as int) || self.almost_removed(t as int, idx as int));
                    }
                }
            }
            k = k + 1;
        }
        let ghost s3 = *self;
        self.menus[m].entries.remove(idx);
        self.entries[item].owner = Owner::Detached;
        proof {
            assert forall|e: int| 0 <= e < self.entries@.len() implies same_content(#[trigger] self.entries@[e], s0.entries@[e]) by {
                assert(same_content(self.entries@[e], s3.entries@[e]));
                assert(same_but_projections(s3.entries@[e], s0.entries@[e]));
            }
            assert(self.contents_kept(s0));
            assert(same_but_projections(s3.entries@[item as int], s0.entries@[item as int]));
            assert(self.unlinked_top(s3, m as int, item as int, idx as int));
            s3.lemma_same_logic_tree(s0);
            s3.lemma_tree_frame(s0);
            self.lemma_unlink_top(s3, m as int, item as int, idx as int, targets@);
            assert forall|e: int| 0 <= e < self.n_entries() && e != item implies same_but_projections(#[trigger] self.entries@[e], s0.entries@[e]) by {
                assert(same_but_projections(s3.entries@[e], s0.entries@[e]));
            }
            assert(self.menus@[m as int].entries@ == s0.menus@[m as int].entries@.remove(idx as int));
        }
        Ok(())
    }

    /// The widget `x` is a live widget of a check item; returns the item.
    pub open spec fn check_widget_of(&self, x: int, e: int) -> bool {
        &&& self.alive(x)
        &&& self.widgets@[x].role is Item
        &&& self.widgets@[x].role->entry as int == e
        &&& 0 <= e < self.n_entries()
        &&& self.entries@[e].kind == ItemKind::Check
    }

    /// The native toolkit reports that the user toggled widget `x` to
    /// `active`. The first notification of a pass starts it: the entry takes
    /// the new value, every peer widget is set to it, and the entry is
    /// returned so that the caller reports it once the pass is finished.
    /// Notifications while a pass is under way, and those that only echo
    /// the entry's current value, are ignored.
    pub fn on_native_toggled(&mut self, x: usize, active: bool) -> (r: Option<usize>)
        requires
            old(self).wf(),
        ensures
            final(self).wf(),
            final(self).entries@.len() == old(self).entries@.len(),
            final(self).menus == old(self).menus,
            match r {
                Some(e) => {
                    &&& old(self).check_widget_of(x as int, e as int)
                    &&& !old(self).entries@[e as int].syncing
                    &&& old(self).entries@[e as int].checked != active
                    &&& final(self).entries@[e as int].checked == active
                    &&& final(self).entries@[e as int].syncing
                    &&& (final(self).entries@[e as int].syncing, true) == notify(old(self).entries@[e as int].syncing)
                    &&& same_structure(final(self).entries@[e as int], old(self).entries@[e as int])
                    &&& final(self).entries@[e as int].text == old(self).entries@[e as int].text
                    &&& final(self).entries@[e as int].enabled == old(self).entries@[e as int].enabled
                    &&& final(self).entries@[e as int].accelerator == old(self).entries@[e as int].accelerator
                    &&& forall|i: int| 0 <= i < final(self).n_entries() && i != e ==> #[trigger] final(self).entries@[i] == old(self).entries@[i]
                    &&& forall|h: int| #[trigger] final(self).alive(h) && final(self).widgets@[h].role is Item
                        && final(self).widgets@[h].role->entry == e ==> final(self).widgets@[h].active == active
                    &&& fanned_out(final(self).ops@, old(self).ops@, Attribute::Checked, final(self).entries@[e as int])
                },
                None => {
                    &&& forall|i: int| 0 <= i < final(self).n_entries() ==> #[trigger] final(self).entries@[i] == old(self).entries@[i]
                    &&& forall|e: int| old(self).check_widget_of(x as int, e) ==> !notify(old(self).entries@[e].syncing).1
                        || old(self).entries@[e].checked == active
                },
            },
            final(self).widgets@.len() == old(self).widgets@.len(),
            forall|h: int|
                0 <= h < final(self).widgets@.len() ==> {
                    &&& (#[trigger] final(self).widgets@[h]).role == old(self).widgets@[h].role
                    &&& final(self).widgets@[h].children == old(self).widgets@[h].children
                    &&& final(self).widgets@[h].alive == old(self).widgets@[h].alive
                },
            forall|i: int| 0 <= i < final(self).n_entries() ==> (#[trigger] final(self).entries@[i]).kind == old(self).entries@[i].kind
                && final(self).entries@[i].projections == old(self).entries@[i].projections,
    {
        let ghost s0 = *self;
        if x >= self.widgets.len() || !self.widgets[x].alive {
            return None;
        }
        let e = match self.widgets[x].role {
            Role::Item { entry, .. } => entry,
            Role::Bar { .. } => {
                return None;
            },
        };
        proof {
            reveal(MenuSystem::widgets_registered);
            assert(self.alive(x as int));
            assert(self.role_ok(x as int));
        }
        if self.entries[e].kind != ItemKind::Check {
            return None;
        }
        let checked = self.entries[e].checked;
        if self.entries[e].syncing || checked == active {
            if checked != active {
                let ghost sp = *self;
                self.ops.push(NativeOp::SetActive { handle: x, value: checked });
                proof {
                    self.lemma_ops_frame(sp, Set::empty());
                }
            }
            return None;
        }
        let started = try_begin(&mut self.entries[e].syncing);
        if !started {
            return None;
        }
        self.entries[e].checked = active;
        proof {
            self.lemma_state_change(s0, e as int);
        }
        self.refresh(e, Attribute::Checked);
        proof {
            assert forall|h: int|
                #[trigger] self.alive(h) && self.widgets@[h].role is Item
                    && self.widgets@[h].role->entry == e implies self.widgets@[h].active == active by {
                self.lemma_widget_shows_entry(h);
            }
        }
        Some(e)
    }

    /// Ends the toggle pass of entry `e`: the guard goes back to idle, and
    /// the entry's identifier is returned as the one event to report.
    pub fn finish_toggle(&mut self, e: usize) -> (id: u32)
        requires
            old(self).wf(),
            (e as int) < old(self).n_entries(),
        ensures
            final(self).wf(),
            id == old(self).entries@[e as int].id,
            !final(self).entries@[e as int].syncing,
            final(self).entries@[e as int].checked == old(self).entries@[e as int].checked,
            final(self).entries@.len() == old(self).entries@.len(),
            forall|i: int| 0 <= i < final(self).n_entries() && i != e ==> #[trigger] final(self).entries@[i] == old(self).entries@[i],
            final(self).menus == old(self).menus,
            final(self).widgets@.len() == old(self).widgets@.len(),
            forall|h: int|
                0 <= h < final(self).widgets@.len() ==> {
                    &&& (#[trigger] final(self).widgets@[h]).role == old(self).widgets@[h].role
                    &&& final(self).widgets@[h].children == old(self).widgets@[h].children
                    &&& final(self).widgets@[h].alive == old(self).widgets@[h].alive
                },
            forall|i: int| 0 <= i < final(self).n_entries() ==> (#[trigger] final(self).entries@[i]).kind == old(self).entries@[i].kind
                && final(self).entries@[i].projections == old(self).entries@[i].projections,
    {
        let ghost s0 = *self;
        self.entries[e].syncing = false;
        proof {
            self.lemma_state_change(s0, e as int);
        }
        self.refresh(e, Attribute::Checked);
        self.entries[e].id
    }

    /// The text of entry `e`, read back from its first native widget when it
    /// has one.
    pub fn text(&self, e: usize) -> (r: Vec<char>)
        requires
            self.wf(),
            (e as int) < self.n_entries(),
        ensures
            r@ == (if self.entries@[e as int].projections@.len() > 0 {
                from_native_spec(to_native_spec(self.entries@[e as int].text@))
            } else {
                self.entries@[e as int].text@
            }),
    {
        if self.entries[e].projections.len() > 0 {
            let x = self.entries[e].projections[0].widget;
            proof {
                reveal(MenuSystem::projections_ok);
                assert(self.projection_ok(e as int, 0));
            }
            from_native(&self.widgets[x].label)
        } else {
            copy_chars(&self.entries[e].text)
        }
    }

    /// Whether entry `e` is enabled, read from its first native widget when
    /// it has one.
    pub fn is_enabled(&self, e: usize) -> (r: bool)
        requires
            self.wf(),
            (e as int) < self.n_entries(),
        ensures
            r == self.entries@[e as int].enabled,
    {
        if self.entries[e].projections.len() > 0 {
            let x = self.entries[e].projections[0].widget;
            proof {
                reveal(MenuSystem::projections_ok);
                assert(self.projection_ok(e as int, 0));
            }
            self.widgets[x].sensitive
        } else {
            self.entries[e].enabled
        }
    }

    /// Whether check item `e` is checked, read from its first native widget
    /// when it has one.
    pub fn is_checked(&self, e: usize) -> (r: bool)
        requires
            self.wf(),
            (e as int) < self.n_entries(),
            self.entries@[e as int].kind == ItemKind::Check,
        ensures
            r == self.entries@[e as int].checked,
    {
        if self.entries[e].projections.len() > 0 {
            let x = self.entries[e].projections[0].widget;
            proof {
                reveal(MenuSystem::projections_ok);
                assert(self.projection_ok(e as int, 0));
            }
            self.widgets[x].active
        } else {
            self.entries[e].checked
        }
    }

    /// Hands the queued native changes to the caller, in order.
    pub fn take_ops(&mut self) -> (r: Vec<NativeOp>)
        requires
            old(self).wf(),
        ensures
            final(self).wf(),
            r@ == old(self).ops@,
            final(self).ops@.len() == 0,
            final(self).entries == old(self).entries,
            final(self).menus == old(self).menus,
            final(self).widgets == old(self).widgets,
    {
        let ghost s0 = *self;
        let mut r: Vec<NativeOp> = Vec::new();
        std::mem::swap(&mut r, &mut self.ops);
        proof {
            self.lemma_ops_frame(s0, Set::empty());
        }
        r
    }


    /// `self` is `old` with `item` placed at `pos` among the top-level
    /// entries of menu `m`, nothing else changed.
    pub open spec fn linked_top(&self, old: MenuSystem, m: int, item: int, pos: int) -> bool {
        &&& 0 <= m < old.menus@.len()
        &&& 0 <= item < old.n_entries()
        &&& old.entries@[item].owner == Owner::Detached
        &&& 0 <= pos <= old.menus@[m].entries@.len()
        &&& self.entries@.len() == old.entries@.len()
        &&& forall|e: int| 0 <= e < self.n_entries() && e != item ==> #[trigger] self.entries@[e] == old.entries@[e]
        &&& self.entries@[item].owner == Owner::InMenu(m as usize)
        &&& self.entries@[item].id == old.entries@[item].id
        &&& self.entries@[item].kind == old.entries@[item].kind
        &&& self.entries@[item].children == old.entries@[item].children
        &&& self.entries@[item].text == old.entries@[item].text
        &&& self.entries@[item].enabled == old.entries@[item].enabled
        &&& self.entries@[item].checked == old.entries@[item].checked
        &&& self.entries@[item].projections == old.entries@[item].projections
        &&& self.menus@.len() == old.menus@.len()
        &&& forall|i: int| 0 <= i < self.menus@.len() && i != m ==> #[trigger] self.menus@[i] == old.menus@[i]
        &&& self.menus@[m].entries@ == old.menus@[m].entries@.insert(pos, item as usize)
        &&& self.menus@[m].bars == old.menus@[m].bars
        &&& self.menus@[m].context == old.menus@[m].context
        &&& self.widgets == old.widgets
        &&& self.ids == old.ids
        &&& self.rank == old.rank
        &&& self.rank_bound == old.rank_bound
    }

    #[verifier::spinoff_prover]
    #[verifier::rlimit(60)]
    proof fn lemma_top_link_tree(&self, old: MenuSystem, m: int, item: int, pos: int)
        requires
            old.wf(),
            self.linked_top(old, m, item, pos),
        ensures
            self.tree_ok(),
    {
        let n = self.n_entries();
        assert(item < self.entries.len() && m < self.menus.len());
        let ol = old.menus@[m].entries@;
        assert(!ol.contains(item as usize)) by {
            reveal(MenuSystem::menu_lists_ok);
            if ol.contains(item as usize) {
                let j = choose|j: int| 0 <= j < ol.len() && ol[j] == item as usize;
                assert(old.entries@[ol[j] as int].owner == Owner::InMenu(m as usize));
            }
        }
        assert(self.ranks_ok()) by {
            reveal(MenuSystem::ranks_ok);
        }
        assert(self.children_ok()) by {
            reveal(MenuSystem::children_ok);
            assert forall|e: int, j: int|
                0 <= e < n && 0 <= j < self.entries@[e].children@.len() implies {
                    let c = #[trigger] self.entries@[e].children@[j] as int;
                    &&& 0 <= c < n
                    &&& self.entries@[c].owner == Owner::InSubmenu(e as usize)
                    &&& self.rank@[c] < self.rank@[e]
                } by {
                assert(self.entries@[e].children == old.entries@[e].children);
                let c = old.entries@[e].children@[j] as int;
                assert(old.entries@[c].owner == Owner::InSubmenu(e as usize));
                assert(c != item);
            }
        }
        assert(self.ids_ok()) by {
            reveal(MenuSystem::ids_ok);
            assert forall|e: int| 0 <= e < n implies (#[trigger] self.entries@[e]).id == old.entries@[e].id by {}
        }
        assert(self.menu_lists_ok()) by {
            reveal(MenuSystem::menu_lists_ok);
            assert forall|i: int, j: int|
                0 <= i < self.menus@.len() && 0 <= j < self.menus@[i].entries@.len() implies {
                    let c = #[trigger] self.menus@[i].entries@[j] as int;
                    &&& 0 <= c < n
                    &&& self.entries@[c].owner == Owner::InMenu(i as usize)
                } by {
                if i == m {
                    let nl = self.menus@[m].entries@;
                    if j < pos {
                        assert(nl[j] == ol[j]);
                        assert(old.entries@[ol[j] as int].owner == Owner::InMenu(i as usize));
                    } else if j > pos {
                        assert(nl[j] == ol[j - 1]);
                        assert(old.entries@[ol[j - 1] as int].owner == Owner::InMenu(i as usize));
                    }
                } else {
                    let c = self.menus@[i].entries@[j] as int;
                    assert(old.entries@[c].owner == Owner::InMenu(i as usize));
                }
            }
            assert forall|i: int| 0 <= i < self.menus@.len() implies (#[trigger] self.menus@[i]).entries@.no_duplicates() by {
                if i == m {
                    lemma_insert_no_duplicates(ol, pos, item as usize);
                }
            }
        }
        assert(self.owners_ok()) by {
            assert forall|e: int| 0 <= e < n implies #[trigger] self.owner_clause(e) by {
                old.lemma_owner_clause(e);
                if e != item {
                    match self.entries@[e].owner {
                        Owner::InSubmenu(p) => {
                            assert(self.entries@[p as int].children == old.entries@[p as int].children);
                        },
                        Owner::InMenu(i) => {
                            if i as int == m {
                                lemma_insert_contains(ol, pos, item as usize, e as usize);
                            }
                        },
                        _ => {},
                    }
                } else {
                    assert(self.menus@[m].entries@[pos] == item as usize);
                }
            }
            reveal(MenuSystem::owners_ok);
            assert forall|e: int| 0 <= e < n implies {
                &&& (#[trigger] self.entries@[e]).children@.no_duplicates()
                &&& self.entries@[e].kind != ItemKind::Submenu ==> self.entries@[e].children@.len() == 0
                &&& match self.entries@[e].owner {
                    Owner::InSubmenu(p) => p < self.n_entries() && self.entries@[p as int].children@.contains(e as usize),
                    Owner::InMenu(mm) => mm < self.menus@.len() && self.menus@[mm as int].entries@.contains(e as usize),
                    Owner::Detached => true,
                }
            } by {
                assert(self.owner_clause(e));
            }
        }
    }

    #[verifier::spinoff_prover]
    #[verifier::rlimit(60)]
    proof fn lemma_top_link_natives(&self, old: MenuSystem, m: int, item: int, pos: int, targets: Seq<usize>)
        requires
            old.wf(),
            self.linked_top(old, m, item, pos),
            forall|h: int| #[trigger] old.alive(h) && old.widgets@[h].role == (Role::Bar { menu: m as usize })
                ==> exists|k: int| 0 <= k < targets.len() && targets[k] as int == h,
            forall|k: int| 0 <= k < targets.len() ==> old.alive(targets[k] as int) && #[trigger] old.widgets@[targets[k] as int].role == (Role::Bar { menu: m as usize }),
        ensures
            self.natives_ok(),
            self.containers_ok_except(Set::new(|h: int| (exists|i: int| 0 <= i < targets.len() && targets[i] as int == h))),
            forall|k: int|
                0 <= k < targets.len() ==> {
                    let t = #[trigger] targets[k] as int;
                    &&& self.alive(t)
                    &&& (self.container_ok(t) || (self.almost_ok(t, pos) && self.shown(t)[pos] == item as usize))
                },
    {
        let n = self.n_entries();
        assert(item < self.entries.len() && m < self.menus.len());
        let tset = Set::new(|h: int| (exists|i: int| 0 <= i < targets.len() && targets[i] as int == h));
        assert forall|e: int| 0 <= e < n implies (#[trigger] self.entries@[e]).projections == old.entries@[e].projections by {}
        assert(self.widgets_registered()) by {
            reveal(MenuSystem::widgets_registered);
            assert forall|h: int| #[trigger] self.alive(h) implies self.role_ok(h) && self.registered(h) by {
                assert(old.alive(h));
                assert(old.registered(h));
                match self.widgets@[h].role {
                    Role::Item { entry, .. } => {
                        assert(self.entries@[entry as int].projections == old.entries@[entry as int].projections);
                    },
                    Role::Bar { menu } => {
                        if menu as int != m {
                            assert(self.menus@[menu as int] == old.menus@[menu as int]);
                        }
                    },
                }
            }
        }
        assert(self.projections_ok()) by {
            reveal(MenuSystem::projections_ok);
            assert forall|e: int, k: int|
                0 <= e < n && 0 <= k < self.entries@[e].projections@.len()
                    implies #[trigger] self.projection_ok(e, k) by {
                assert(old.projection_ok(e, k));
            }
        }
        assert(self.menus_ok()) by {
            reveal(MenuSystem::menus_ok);
            assert forall|i: int| 0 <= i < self.menus@.len() implies #[trigger] self.menu_ok(i) by {
                assert(old.menu_ok(i));
            }
        }
        let ol = old.menus@[m].entries@;
        assert forall|k: int| 0 <= k < targets.len() implies {
                let t = #[trigger] targets[k] as int;
                &&& self.alive(t)
                &&& (self.container_ok(t) || (self.almost_ok(t, pos) && self.shown(t)[pos] == item as usize))
            } by {
            reveal(MenuSystem::containers_ok_except);
            let t = targets[k] as int;
            assert(old.widgets@[targets[k] as int].role == (Role::Bar { menu: m as usize }));
            assert(old.container_ok(t));
            let ch = self.widgets@[t].children@;
            assert forall|j: int| 0 <= j < ch.len() implies {
                let x = #[trigger] ch[j] as int;
                &&& 0 <= x < self.widgets@.len()
                &&& self.widgets@[x].alive
                &&& self.widgets@[x].role == (Role::Item {
                    entry: self.shown(t)[if j < pos { j } else { j + 1 }],
                    parent: t as usize,
                })
            } by {
                assert(old.child_ok(t, j));
            }
        }
        assert(self.containers_ok_except(tset)) by {
            reveal(MenuSystem::containers_ok_except);
            reveal(MenuSystem::widgets_registered);
            assert forall|h: int| #[trigger] self.alive(h) && !tset.contains(h) implies self.container_ok(h) by {
                assert(old.alive(h));
                assert(old.container_ok(h));
                assert(old.role_ok(h));
                match self.widgets@[h].role {
                    Role::Bar { menu } => {
                        if menu as int == m {
                            assert(m < self.menus.len());
                            assert(tset.contains(h));
                        }
                        assert(self.menus@[menu as int].entries == old.menus@[menu as int].entries);
                    },
                    Role::Item { entry, .. } => {
                        assert(self.entries@[entry as int].children == old.entries@[entry as int].children);
                    },
                }
                assert(self.shown(h) == old.shown(h));
                assert forall|j: int| 0 <= j < self.shown(h).len() implies #[trigger] self.child_ok(h, j) by {
                    assert(old.child_ok(h, j));
                }
            }
        }
    }

    /// The native roots of menu `m`: its menu bars, then its context menu.
    fn roots_of(&self, m: usize) -> (r: Vec<usize>)
        requires
            self.wf(),
            (m as int) < self.menus@.len(),
        ensures
            forall|h: int| #[trigger] self.alive(h) && self.widgets@[h].role == (Role::Bar { menu: m })
                ==> exists|k: int| 0 <= k < r@.len() && r@[k] as int == h,
            forall|k: int| 0 <= k < r@.len() ==> self.alive(r@[k] as int) && #[trigger] self.widgets@[r@[k] as int].role == (Role::Bar { menu: m }),
    {
        proof {
            reveal(MenuSystem::menus_ok);
            assert(self.menu_ok(m as int));
        }
        let n = self.menus[m].bars.len();
        let mut r: Vec<usize> = Vec::new();
        let mut k: usize = 0;
        while k < n
            invariant
                0 <= k <= n,
                self.wf(),
                (m as int) < self.menus@.len(),
                self.menu_ok(m as int),
                n == self.menus@[m as int].bars@.len(),
                r@.len() == k,
                forall|i: int| 0 <= i < k ==> #[trigger] r@[i] == self.menus@[m as int].bars@[i].bar,
            decreases n - k,
        {
            r.push(self.menus[m].bars[k].bar);
            k = k + 1;
        }
        let ghost nb = r@.len();
        match self.menus[m].context {
            Some(c) => {
                r.push(c);
            },
            None => {},
        }
        proof {
            reveal(MenuSystem::widgets_registered);
            assert forall|k: int| 0 <= k < r@.len() implies self.alive(r@[k] as int) && #[trigger] self.widgets@[r@[k] as int].role == (Role::Bar { menu: m }) by {
                if k < nb {
                    assert(r@[k] == self.menus@[m as int].bars@[k].bar);
                    let b = self.menus@[m as int].bars@[k];
                    assert(self.menus@[m as int].bars@[k] == b);
                }
            }
            assert forall|h: int| #[trigger] self.alive(h) && self.widgets@[h].role == (Role::Bar { menu: m })
                implies exists|k: int| 0 <= k < r@.len() && r@[k] as int == h by {
                assert(self.registered(h));
                assert(h < self.widgets.len());
                if self.menus@[m as int].context == Some(h as usize) {
                    assert(r@[nb as int] as int == h);
                } else {
                    let b = choose|b: int| 0 <= b < self.menus@[m as int].bars@.len() && #[trigger] self.menus@[m as int].bars@[b].bar == h as usize;
                    assert(r@[b] as int == h);
                }
            }
        }
        r
    }

    /// Inserts the detached entry `item` at `pos` among the top-level
    /// entries of menu `m`, and projects it into every native root of `m`.
    pub fn insert_into_menu(&mut self, m: usize, item: usize, pos: usize) -> (r: Result<(), MenuError>)
        requires
            old(self).wf(),
            (m as int) < old(self).menus@.len(),
            (item as int) < old(self).n_entries(),
        ensures
            final(self).wf(),
            pos > old(self).menus@[m as int].entries@.len() ==> r == Err::<(), MenuError>(MenuError::OutOfRange),
            pos <= old(self).menus@[m as int].entries@.len() && old(self).entries@[item as int].owner != Owner::Detached
                ==> r == Err::<(), MenuError>(MenuError::AlreadyAttached),
            r is Err ==> *final(self) == *old(self),
            pos <= old(self).menus@[m as int].entries@.len() && old(self).entries@[item as int].owner == Owner::Detached ==> {
                &&& r is Ok
                &&& final(self).menus@.len() == old(self).menus@.len()
                &&& final(self).menus@[m as int].entries@ == old(self).menus@[m as int].entries@.insert(pos as int, item)
                &&& forall|i: int| 0 <= i < final(self).menus@.len() && i != m ==> (#[trigger] final(self).menus@[i]).entries == old(self).menus@[i].entries
                &&& final(self).entries@.len() == old(self).entries@.len()
                &&& final(self).entries@[item as int].owner == Owner::InMenu(m)
                &&& forall|e: int| 0 <= e < final(self).n_entries() && e != item ==> same_but_projections(#[trigger] final(self).entries@[e], old(self).entries@[e])
            },
            final(self).contents_kept(*old(self)),
            final(self).menus@.len() == old(self).menus@.len(),
            final(self).creates_new_widgets(*old(self)),
    {
        if pos > self.menus[m].entries.len() {
            return Err(MenuError::OutOfRange);
        }
        match self.entries[item].owner {
            Owner::Detached => {},
            _ => {
                return Err(MenuError::AlreadyAttached);
            },
        }
        let targets = self.roots_of(m);
        let ghost s1 = *self;
        self.menus[m].entries.insert(pos, item);
        self.entries[item].owner = Owner::InMenu(m);
        proof {
            assert(same_content(self.entries@[item as int], s1.entries@[item as int]));
            assert(self.linked_top(s1, m as int, item as int, pos as int));
            self.lemma_top_link_tree(s1, m as int, item as int, pos as int);
            self.lemma_top_link_natives(s1, m as int, item as int, pos as int, targets@);
        }
        let ghost s2 = *self;
        self.project_into_all(item, pos, &targets);
        proof {
            assert forall|e: int| 0 <= e < self.n_entries() && e != item implies same_but_projections(#[trigger] self.entries@[e], s1.entries@[e]) by {
                assert(same_but_projections(self.entries@[e], s2.entries@[e]));
            }
            assert(same_but_projections(self.entries@[item as int], s2.entries@[item as int]));
            assert forall|e: int| 0 <= e < self.entries@.len() implies same_content(#[trigger] self.entries@[e], s1.entries@[e]) by {
                assert(same_but_projections(self.entries@[e], s2.entries@[e]));
                assert(same_content(s2.entries@[e], s1.entries@[e]));
            }
        }
        Ok(())
    }


    /// The context-menu form of menu `m`, projected and tracked like a menu
    /// bar; created on first use.
    pub fn context_menu(&mut self, m: usize) -> (b: usize)
        requires
            old(self).wf(),
            (m as int) < old(self).menus@.len(),
        ensures
            final(self).wf(),
            final(self).same_logic(*old(self)),
            final(self).same_menu_entries(*old(self)),
            final(self).alive(b as int),
            final(self).widgets@[b as int].role == (Role::Bar { menu: m }),
            final(self).container_ok(b as int),
            final(self).menus@[m as int].context == Some(b),
            old(self).widgets@.len() <= final(self).widgets@.len(),
            forall|h: int| 0 <= h < old(self).widgets@.len() ==> #[trigger] final(self).widgets@[h] == old(self).widgets@[h],
            old(self).menus@[m as int].context is Some ==> *final(self) == *old(self) && old(self).menus@[m as int].context == Some(b),
            final(self).creates_new_widgets(*old(self)),
    {
        match self.menus[m].context {
            Some(c) => {
                proof {
                    reveal(MenuSystem::menus_ok);
                    reveal(MenuSystem::containers_ok_except);
                    assert(self.menu_ok(m as int));
                    assert forall|e: int| 0 <= e < self.n_entries() implies same_but_projections(
                        #[trigger] self.entries@[e],
                        self.entries@[e],
                    ) by {}
                }
                c
            },
            None => {
                let ghost s0 = *self;
                let b = self.add_root(m, None);
                let ghost s1 = *self;
                self.fill_root(m, b);
                proof {
                    Self::lemma_creates_trans(*self, s1, s0);
                    assert forall|e: int| 0 <= e < s1.n_entries() implies same_but_projections(
                        #[trigger] s1.entries@[e],
                        s0.entries@[e],
                    ) by {}
                    Self::lemma_same_logic_trans(*self, s1, s0);
                    reveal(MenuSystem::containers_ok_except);
                }
                b
            },
        }
    }


    /// In a well-formed engine, which every operation keeps, each live
    /// native container holds exactly one live widget per logical child, in
    /// the logical order, and each live widget shows its entry's current
    /// text, enabled state and checked state. This holds for every window
    /// whenever it was attached, before or after any mutation.
    pub proof fn lemma_native_mirrors_logical(&self, h: int)
        requires
            self.wf(),
            self.alive(h),
        ensures
            self.container_ok(h),
            forall|j: int| 0 <= j < self.shown(h).len() ==> {
                let x = #[trigger] self.widgets@[h].children@[j] as int;
                &&& self.alive(x)
                &&& self.widgets@[x].role->entry == self.shown(h)[j]
                &&& shows(self.widgets@[x], self.entries@[self.shown(h)[j] as int])
            },
    {
        reveal(MenuSystem::containers_ok_except);
        assert(self.container_ok(h));
        assert forall|j: int| 0 <= j < self.shown(h).len() implies {
            let x = #[trigger] self.widgets@[h].children@[j] as int;
            &&& self.alive(x)
            &&& self.widgets@[x].role->entry == self.shown(h)[j]
            &&& shows(self.widgets@[x], self.entries@[self.shown(h)[j] as int])
        } by {
            assert(self.child_ok(h, j));
            let x = self.widgets@[h].children@[j] as int;
            self.lemma_widget_shows_entry(x);
        }
    }


    /// Queues showing or hiding the menu bar of menu `m` in `window`.
    pub fn show_bar(&mut self, m: usize, window: u64, visible: bool) -> (r: Result<(), MenuError>)
        requires
            old(self).wf(),
            (m as int) < old(self).menus@.len(),
        ensures
            final(self).wf(),
            final(self).entries == old(self).entries,
            final(self).menus == old(self).menus,
            final(self).widgets == old(self).widgets,
            r is Err <==> forall|i: int| 0 <= i < old(self).menus@[m as int].bars@.len() ==> #[trigger] old(self).menus@[m as int].bars@[i].window != window,
            r is Err ==> r == Err::<(), MenuError>(MenuError::NotInitialized) && *final(self) == *old(self),
            r is Ok ==> exists|i: int| #[trigger] old(self).first_bar(m as int, window, i) && final(self).ops@ == old(self).ops@.push(
                if visible {
                    NativeOp::Show { handle: old(self).menus@[m as int].bars@[i].bar }
                } else {
                    NativeOp::Hide { handle: old(self).menus@[m as int].bars@[i].bar }
                },
            ),
    {
        match self.bar_for_window(m, window) {
            Some(b) => {
                let ghost s0 = *self;
                proof {
                    let i = choose|i: int| #[trigger] self.first_bar(m as int, window, i) && self.menus@[m as int].bars@[i].bar == b;
                    assert(self.menus@[m as int].bars@[i].window == window);
                }
                if visible {
                    self.ops.push(NativeOp::Show { handle: b });
                } else {
                    self.ops.push(NativeOp::Hide { handle: b });
                }
                proof {
                    self.lemma_ops_frame(s0, Set::empty());
                }
                Ok(())
            },
            None => Err(MenuError::NotInitialized),
        }
    }


    /// Forgets the menu bar `b` of menu `m`: it is marked destroyed and
    /// taken out of the menu's list of bars. Its children must be gone.
    #[verifier::spinoff_prover]
    #[verifier::rlimit(60)]
    fn drop_bar(&mut self, m: usize, b: usize)
        requires
            old(self).inv_except(set![b as int]),
            (m as int) < old(self).menus@.len(),
            old(self).alive(b as int),
            old(self).widgets@[b as int].role == (Role::Bar { menu: m }),
            old(self).menus@[m as int].context != Some(b),
            forall|h: int| #[trigger] old(self).alive(h) && old(self).widgets@[h].role is Item ==> old(self).widgets@[h].role->parent != b,
        ensures
            final(self).wf(),
            final(self).same_logic(*old(self)),
            final(self).same_menu_entries(*old(self)),
            !final(self).alive(b as int),
            forall|i: int| 0 <= i < final(self).menus@[m as int].bars@.len() ==> #[trigger] final(self).menus@[m as int].bars@[i].bar != b,
            final(self).ops == old(self).ops,
            forall|h: int| #[trigger] final(self).alive(h) ==> old(self).alive(h),
    {
        let ghost s0 = *self;
        let n = self.menus[m].bars.len();
        let mut kept: Vec<WindowBar> = Vec::new();
        let mut k: usize = 0;
        while k < n
            invariant
                0 <= k <= n,
                *self == s0,
                (m as int) < self.menus@.len(),
                n == self.menus@[m as int].bars@.len(),
                forall|i: int| 0 <= i < kept@.len() ==> (#[trigger] kept@[i]).bar != b && self.menus@[m as int].bars@.contains(kept@[i]),
                forall|i: int| 0 <= i < k && (#[trigger] self.menus@[m as int].bars@[i]).bar != b ==> kept@.contains(self.menus@[m as int].bars@[i]),
            decreases n - k,
        {
            let wb = self.menus[m].bars[k];
            if wb.bar != b {
                let ghost before = kept@;
                kept.push(wb);
                proof {
                    assert forall|i: int| 0 <= i < kept@.len() implies (#[trigger] kept@[i]).bar != b && self.menus@[m as int].bars@.contains(kept@[i]) by {
                        if i < before.len() {
                            assert(kept@[i] == before[i]);
                        } else {
                            assert(kept@[i] == self.menus@[m as int].bars@[k as int]);
                        }
                    }
                    assert forall|i: int| 0 <= i < k + 1 && (#[trigger] self.menus@[m as int].bars@[i]).bar != b implies kept@.contains(self.menus@[m as int].bars@[i]) by {
                        if i < k {
                            let j = choose|j: int| 0 <= j < before.len() && before[j] == self.menus@[m as int].bars@[i];
                            assert(kept@[j] == before[j]);
                        } else {
                            assert(kept@[before.len() as int] == self.menus@[m as int].bars@[i]);
                        }
                    }
                }
            }
            k = k + 1;
        }
        let ghost olds = s0.menus@[m as int].bars@;
        self.menus[m].bars = kept;
        self.widgets[b].alive = false;
        proof {
            assert forall|e: int| 0 <= e < self.n_entries() implies same_but_projections(#[trigger] self.entries@[e], s0.entries@[e]) by {}
            assert forall|i: int| 0 <= i < self.menus@.len() implies (#[trigger] self.menus@[i]).entries == s0.menus@[i].entries by {}
            self.lemma_same_logic_tree(s0);
            self.lemma_tree_frame(s0);
            assert(self.widgets_registered()) by {
                reveal(MenuSystem::widgets_registered);
                assert forall|h: int| #[trigger] self.alive(h) implies self.role_ok(h) && self.registered(h) by {
                    assert(h != b as int);
                    assert(s0.alive(h));
                    assert(s0.registered(h));
                    assert(s0.role_ok(h));
                    match self.widgets@[h].role {
                        Role::Bar { menu } => {
                            if menu == m {
                                if s0.menus@[m as int].context != Some(h as usize) {
                                    let j = choose|j: int| 0 <= j < olds.len() && #[trigger] olds[j].bar == h as usize;
                                    assert(h < self.widgets.len());
                                    assert(olds[j].bar != b);
                                    assert(self.menus@[m as int].bars@.contains(olds[j]));
                                    let j2 = choose|j2: int| 0 <= j2 < self.menus@[m as int].bars@.len() && self.menus@[m as int].bars@[j2] == olds[j];
                                    assert(self.menus@[m as int].bars@[j2].bar == h as usize);
                                }
                            } else {
                                assert(self.menus@[menu as int] == s0.menus@[menu as int]);
                            }
                        },
                        _ => {},
                    }
                }
            }
            assert(self.projections_ok()) by {
                reveal(MenuSystem::projections_ok);
                assert forall|e: int, k2: int|
                    0 <= e < self.n_entries() && 0 <= k2 < self.entries@[e].projections@.len()
                        implies #[trigger] self.projection_ok(e, k2) by {
                    assert(s0.projection_ok(e, k2));
                }
            }
            assert(self.menus_ok()) by {
                reveal(MenuSystem::menus_ok);
                assert forall|i: int| 0 <= i < self.menus@.len() implies #[trigger] self.menu_ok(i) by {
                    assert(s0.menu_ok(i));
                    assert(m < self.menus.len());
                    match self.menus@[i].context {
                        Some(c) => {
                            assert(c as int != b as int);
                        },
                        None => {},
                    }
                    if i != m as int {
                        assert(self.menus@[i] == s0.menus@[i]);
                        let md = self.menus@[i];
                        assert forall|j: int| 0 <= j < md.bars@.len() implies {
                            let h = (#[trigger] md.bars@[j]).bar as int;
                            self.alive(h) && self.widgets@[h].role == (Role::Bar { menu: i as usize })
                        } by {
                            let h = md.bars@[j].bar as int;
                            assert(s0.widgets@[h].role == (Role::Bar { menu: i as usize }));
                            assert(h != b as int);
                        }
                    }
                    if i == m as int {
                        let md = self.menus@[i];
                        assert forall|j: int| 0 <= j < md.bars@.len() implies {
                            let h = (#[trigger] md.bars@[j]).bar as int;
                            self.alive(h) && self.widgets@[h].role == (Role::Bar { menu: i as usize })
                        } by {
                            let wb = md.bars@[j];
                            assert(kept@[j] == wb);
                            assert(olds.contains(wb));
                            let j0 = choose|j0: int| 0 <= j0 < olds.len() && olds[j0] == wb;
                            assert(s0.menus@[i].bars@[j0] == wb);
                        }
                    }
                }
            }
            assert(self.containers_ok_except(Set::empty())) by {
                reveal(MenuSystem::containers_ok_except);
                reveal(MenuSystem::widgets_registered);
                assert forall|h: int| #[trigger] self.alive(h) && !Set::<int>::empty().contains(h) implies self.container_ok(h) by {
                    assert(h != b as int);
                    assert(s0.alive(h));
                    assert(s0.container_ok(h));
                    assert(s0.role_ok(h));
                    assert(self.shown(h) == s0.shown(h));
                    assert forall|j: int| 0 <= j < self.shown(h).len() implies #[trigger] self.child_ok(h, j) by {
                        assert(s0.child_ok(h, j));
                        let c = self.widgets@[h].children@[j] as int;
                        assert(c != b as int);
                    }
                }
            }
            assert forall|i: int| 0 <= i < self.menus@[m as int].bars@.len() implies #[trigger] self.menus@[m as int].bars@[i].bar != b by {
                assert(kept@[i].bar != b);
            }
        }
    }


    /// Detaches menu `m` from `window`: destroys the native projection of
    /// the whole menu there and the menu bar itself.
    pub fn remove_for_window(&mut self, m: usize, window: u64) -> (r: Result<(), MenuError>)
        requires
            old(self).wf(),
            (m as int) < old(self).menus@.len(),
        ensures
            final(self).wf(),
            (forall|i: int| 0 <= i < old(self).menus@[m as int].bars@.len() ==> #[trigger] old(self).menus@[m as int].bars@[i].window != window)
                <==> r == Err::<(), MenuError>(MenuError::NotInitialized),
            r is Err ==> *final(self) == *old(self),
            r is Ok ==> {
                &&& final(self).same_logic(*old(self))
                &&& final(self).same_menu_entries(*old(self))
                &&& exists|i: int| 0 <= i < old(self).menus@[m as int].bars@.len() && #[trigger] old(self).menus@[m as int].bars@[i].window == window
                    && !final(self).alive(old(self).menus@[m as int].bars@[i].bar as int)
                    && forall|k: int| 0 <= k < final(self).menus@[m as int].bars@.len() ==> #[trigger] final(self).menus@[m as int].bars@[k].bar != old(self).menus@[m as int].bars@[i].bar
            },
            r is Ok ==> {
                &&& old(self).ops@.len() < final(self).ops@.len()
                &&& forall|i: int| 0 <= i < old(self).ops@.len() ==> #[trigger] final(self).ops@[i] == old(self).ops@[i]
                &&& forall|i: int|
                    old(self).ops@.len() <= i < final(self).ops@.len() - 1 ==> match #[trigger] final(self).ops@[i] {
                        NativeOp::Destroy { handle } => old(self).alive(handle as int) && !final(self).alive(handle as int),
                        _ => false,
                    }
                &&& exists|b: usize| #[trigger] final(self).ops@.last() == (NativeOp::DestroyBar { handle: b, window })
                    && !final(self).alive(b as int) && old(self).widgets@[b as int].role == (Role::Bar { menu: m })
            },
    {
        let b = match self.bar_for_window(m, window) {
            Some(b) => b,
            None => {
                return Err(MenuError::NotInitialized);
            },
        };
        let ghost s0 = *self;
        let ghost skip = set![b as int];
        proof {
            reveal(MenuSystem::menus_ok);
            reveal(MenuSystem::containers_ok_except);
            let i = choose|i: int| 0 <= i < self.menus@[m as int].bars@.len() && #[trigger] self.menus@[m as int].bars@[i] == (WindowBar { window, bar: b });
            assert(self.menu_ok(m as int));
            assert(self.menus@[m as int].bars@[i].bar == b);
            assert(self.inv_except(skip));
            assert forall|e: int| 0 <= e < self.n_entries() implies same_but_projections(#[trigger] self.entries@[e], self.entries@[e]) by {}
        }
        let n = self.widgets.len();
        let mut h: usize = b + 1;
        while h < n
            invariant
                self.destroys_only(s0),
                forall|k: int| #[trigger] self.alive(k) ==> s0.alive(k),
                b < h <= n,
                n == self.widgets@.len(),
                (m as int) < self.menus@.len(),
                self.inv_except(skip),
                skip == set![b as int],
                self.alive(b as int),
                self.widgets@[b as int].role == (Role::Bar { menu: m }),
                self.menus == s0.menus,
                self.same_logic(s0),
                self.menus@[m as int].context != Some(b),
                forall|k: int| b < k < h && #[trigger] self.alive(k) && self.widgets@[k].role is Item ==> self.widgets@[k].role->parent != b,
            decreases n - h,
        {
            let child_of_bar = match self.widgets[h].role {
                Role::Item { parent, .. } => parent == b && self.widgets[h].alive,
                Role::Bar { .. } => false,
            };
            if child_of_bar {
                let ghost s1 = *self;
                self.destroy_subtree(h, Ghost(skip));
                proof {
                    Self::lemma_same_logic_trans(*self, s1, s0);
                    Self::lemma_destroys_step(*self, s1, s0);
                    assert forall|k: int| #[trigger] self.alive(k) implies s0.alive(k) by {
                        assert(s1.alive(k));
                    }
                    assert(self.alive(b as int)) by {
                        if !self.alive(b as int) {
                            assert(s1.alive(b as int));
                        }
                    }
                    assert(same_but_alive(self.widgets@[b as int], s1.widgets@[b as int]));
                    assert forall|k: int| b < k < h + 1 && #[trigger] self.alive(k) && self.widgets@[k].role is Item implies self.widgets@[k].role->parent != b by {
                        assert(s1.alive(k));
                        assert(same_but_alive(self.widgets@[k], s1.widgets@[k]));
                    }
                }
            }
            h = h + 1;
        }
        let ghost s2 = *self;
        self.ops.push(NativeOp::DestroyBar { handle: b, window });
        proof {
            self.lemma_ops_frame(s2, skip);
            reveal(MenuSystem::widgets_registered);
            assert forall|k: int| #[trigger] self.alive(k) && self.widgets@[k].role is Item implies self.widgets@[k].role->parent != b by {
                assert(self.role_ok(k));
                if k <= b as int {
                    assert(k != b as int);
                } else {
                    assert(self.widgets == s2.widgets);
                    assert(s2.alive(k));
                    assert(k < n);
                }
            }
        }
        let ghost s3 = *self;
        self.drop_bar(m, b);
        proof {
            assert(self.ops@.last() == (NativeOp::DestroyBar { handle: b, window }));
            assert forall|i: int|
                s0.ops@.len() <= i < self.ops@.len() - 1 implies match #[trigger] self.ops@[i] {
                    NativeOp::Destroy { handle } => s0.alive(handle as int) && !self.alive(handle as int),
                    _ => false,
                } by {
                assert(self.ops@[i] == s2.ops@[i]);
                match s2.ops@[i] {
                    NativeOp::Destroy { handle } => {
                        assert(!s2.alive(handle as int));
                        assert(!s3.alive(handle as int));
                    },
                    _ => {},
                }
            }
            assert forall|i: int| 0 <= i < s0.ops@.len() implies #[trigger] self.ops@[i] == s0.ops@[i] by {
                assert(self.ops@[i] == s2.ops@[i]);
            }
            Self::lemma_same_logic_trans(s3, s2, s0);
            Self::lemma_same_logic_trans(*self, s3, s0);
            let i = choose|i: int| 0 <= i < s0.menus@[m as int].bars@.len() && #[trigger] s0.menus@[m as int].bars@[i] == (WindowBar { window, bar: b });
            assert(s0.menus@[m as int].bars@[i].window == window);
            assert forall|mm: int| 0 <= mm < self.menus@.len() implies (#[trigger] self.menus@[mm]).entries == s0.menus@[mm].entries by {
                assert(self.menus@[mm].entries == s3.menus@[mm].entries);
            }
        }
        Ok(())
    }


    /// Whether `item` is `s` or an ancestor of `s`, walking up from `s`.
    pub fn is_nested(&self, s: usize, item: usize) -> (r: bool)
        requires
            self.wf(),
            (s as int) < self.n_entries(),
            (item as int) < self.n_entries(),
        ensures
            r == self.is_ancestor(item as int, s as int),
    {
        proof {
            reveal(MenuSystem::ranks_ok);
        }
        let mut cur: usize = s;
        let mut found: bool = s == item;
        let mut going: bool = true;
        let ghost mut visited: Set<int> = set![s as int];
        let ghost mut steps: nat = 0;
        while going
            invariant
                self.wf(),
                0 <= cur < self.n_entries(),
                (s as int) < self.n_entries(),
                (item as int) < self.n_entries(),
                visited.contains(cur as int),
                visited.contains(s as int),
                self.rank@[cur as int] < self.rank_bound@,
                forall|v: int| #[trigger] visited.contains(v) ==> 0 <= v < self.n_entries() && self.ancestor_within(v, s as int, steps),
                forall|v: int|
                    #[trigger] visited.contains(v) && v != cur ==> match self.entries@[v].owner {
                        Owner::InSubmenu(p) => visited.contains(p as int),
                        _ => false,
                    },
                !going ==> !(self.entries@[cur as int].owner is InSubmenu),
                found == visited.contains(item as int),
            decreases self.rank_bound@ - self.rank@[cur as int] + (if going { 1int } else { 0int }),
        {
            match self.entries[cur].owner {
                Owner::InSubmenu(p) => {
                    proof {
                        self.lemma_parent_rank(cur as int, p);
                        assert forall|v: int| #[trigger] visited.contains(v) implies self.ancestor_within(v, s as int, steps + 1) by {
                            self.lemma_ancestor_mono(v, s as int, steps);
                        }
                        self.lemma_ancestor_extend(cur as int, s as int, steps, p);
                        visited = visited.insert(p as int);
                        steps = steps + 1;
                    }
                    found = found || p == item;
                    cur = p;
                },
                _ => {
                    going = false;
                },
            }
        }
        proof {
            if found {
                assert(self.ancestor_within(item as int, s as int, steps));
            } else {
                assert forall|fuel: nat| !self.ancestor_within(item as int, s as int, fuel) by {
                    self.lemma_not_ancestor(item as int, s as int, fuel, visited, cur as int);
                }
            }
        }
        found
    }

    /// Changing the owner of one entry that is not on the walk up from `x`
    /// changes nothing on that walk.
    pub proof fn lemma_ancestor_frame(new: MenuSystem, old: MenuSystem, changed: int, a: int, x: int, fuel: nat)
        requires
            new.entries@.len() == old.entries@.len(),
            forall|e: int| 0 <= e < old.n_entries() && e != changed ==> (#[trigger] new.entries@[e]).owner == old.entries@[e].owner,
            !old.ancestor_within(changed, x, fuel),
        ensures
            new.ancestor_within(a, x, fuel) == old.ancestor_within(a, x, fuel),
        decreases fuel,
    {
        if x != a && fuel > 0 && 0 <= x < old.n_entries() {
            assert(x != changed);
            assert(new.entries@[x].owner == old.entries@[x].owner);
            match old.entries@[x].owner {
                Owner::InSubmenu(p) => {
                    Self::lemma_ancestor_frame(new, old, changed, a, p as int, (fuel - 1) as nat);
                },
                _ => {},
            }
        }
    }


    /// Whether an entry already carries the identifier `id`.
    pub fn id_in_use(&self, id: u32) -> (r: bool)
        ensures
            r == exists|e: int| 0 <= e < self.n_entries() && #[trigger] self.entries@[e].id == id,
    {
        let mut e: usize = 0;
        while e < self.entries.len()
            invariant
                e <= self.entries@.len(),
                forall|k: int| 0 <= k < e ==> #[trigger] self.entries@[k].id != id,
            decreases self.entries@.len() - e,
        {
            if self.entries[e].id == id {
                return true;
            }
            e = e + 1;
        }
        false
    }

    /// Creates a detached logical entry with the identifier `id`, which no
    /// entry carries yet; the counter will not hand it out later.
    #[verifier::spinoff_prover]
    #[verifier::rlimit(60)]
    pub fn add_entry_with_id(
        &mut self,
        id: u32,
        text: Vec<char>,
        enabled: bool,
        checked: bool,
        accelerator: Option<Accelerator>,
        kind: ItemKind,
    ) -> (r: usize)
        requires
            old(self).wf(),
            old(self).ids.next < u32::MAX,
            id < u32::MAX,
            forall|e: int| 0 <= e < old(self).n_entries() ==> #[trigger] old(self).entries@[e].id != id,
        ensures
            final(self).wf(),
            r == old(self).entries@.len(),
            final(self).entries@.len() == r + 1,
            forall|e: int| 0 <= e < r ==> #[trigger] final(self).entries@[e] == old(self).entries@[e],
            final(self).entries@[r as int].id == id,
            final(self).entries@[r as int].text@ == text@,
            final(self).entries@[r as int].enabled == enabled,
            final(self).entries@[r as int].checked == checked,
            final(self).entries@[r as int].accelerator == accelerator,
            final(self).entries@[r as int].kind == kind,
            final(self).entries@[r as int].children@.len() == 0,
            final(self).entries@[r as int].owner == Owner::Detached,
            final(self).entries@[r as int].projections@.len() == 0,
            !final(self).entries@[r as int].syncing,
            final(self).ids.next > id,
            final(self).menus == old(self).menus,
            final(self).widgets == old(self).widgets,
    {
        let r = self.add_entry(text, enabled, checked, accelerator, kind);
        let ghost s1 = *self;
        self.entries[r].id = id;
        self.ids.reserve(id);
        proof {
            let n = self.n_entries();
            assert forall|e: int| 0 <= e < n && e != r implies #[trigger] self.entries@[e] == s1.entries@[e] by {}
            assert(self.ranks_ok()) by {
                reveal(MenuSystem::ranks_ok);
            }
            assert(self.children_ok()) by {
                reveal(MenuSystem::children_ok);
                assert forall|e: int, j: int|
                    0 <= e < n && 0 <= j < self.entries@[e].children@.len() implies {
                        let c = #[trigger] self.entries@[e].children@[j] as int;
                        &&& 0 <= c < n
                        &&& self.entries@[c].owner == Owner::InSubmenu(e as usize)
                        &&& self.rank@[c] < self.rank@[e]
                    } by {
                    assert(e != r as int);
                    assert(self.entries@[e].children == s1.entries@[e].children);
                    let c = s1.entries@[e].children@[j] as int;
                    assert(self.entries@[c].owner == s1.entries@[c].owner);
                }
            }
            assert(self.owners_ok()) by {
                assert forall|e: int| 0 <= e < n implies #[trigger] self.owner_clause(e) by {
                    s1.lemma_owner_clause(e);
                    match self.entries@[e].owner {
                        Owner::InSubmenu(p) => {
                            assert(self.entries@[p as int].children == s1.entries@[p as int].children);
                        },
                        _ => {},
                    }
                }
                reveal(MenuSystem::owners_ok);
                assert forall|e: int| 0 <= e < n implies {
                    &&& (#[trigger] self.entries@[e]).children@.no_duplicates()
                    &&& self.entries@[e].kind != ItemKind::Submenu ==> self.entries@[e].children@.len() == 0
                    &&& match self.entries@[e].owner {
                        Owner::InSubmenu(p) => p < self.n_entries() && self.entries@[p as int].children@.contains(e as usize),
                        Owner::InMenu(mm) => mm < self.menus@.len() && self.menus@[mm as int].entries@.contains(e as usize),
                        Owner::Detached => true,
                    }
                } by {
                    assert(self.owner_clause(e));
                }
            }
            assert(self.menu_lists_ok()) by {
                reveal(MenuSystem::menu_lists_ok);
                assert forall|m: int, j: int|
                    0 <= m < self.menus@.len() && 0 <= j < self.menus@[m].entries@.len() implies {
                        let c = #[trigger] self.menus@[m].entries@[j] as int;
                        &&& 0 <= c < n
                        &&& self.entries@[c].owner == Owner::InMenu(m as usize)
                    } by {
                    let c = self.menus@[m].entries@[j] as int;
                    assert(self.entries@[c].owner == s1.entries@[c].owner);
                }
            }
            assert(self.ids_ok()) by {
                reveal(MenuSystem::ids_ok);
                assert forall|a: int, b: int|
                    0 <= a < n && 0 <= b < n && a != b implies #[trigger] self.entries@[a].id != #[trigger] self.entries@[b].id by {
                    if a != r as int && b != r as int {
                        assert(s1.entries@[a].id != s1.entries@[b].id);
                    } else if a == r as int {
                        assert(old(self).entries@[b] == s1.entries@[b]);
                    } else {
                        assert(old(self).entries@[a] == s1.entries@[a]);
                    }
                }
                assert forall|e: int| 0 <= e < n implies #[trigger] self.entries@[e].id < self.ids.next by {
                    if e != r as int {
                        assert(s1.entries@[e].id < s1.ids.next);
                    }
                }
            }
            assert(self.widgets_registered()) by {
                reveal(MenuSystem::widgets_registered);
                assert forall|h: int| #[trigger] self.alive(h) implies self.role_ok(h) && self.registered(h) by {
                    assert(s1.alive(h));
                    assert(s1.registered(h));
                    match self.widgets@[h].role {
                        Role::Item { entry, .. } => {
                            assert(self.entries@[entry as int].projections == s1.entries@[entry as int].projections);
                        },
                        _ => {},
                    }
                }
            }
            assert(self.projections_ok()) by {
                reveal(MenuSystem::projections_ok);
                assert forall|e: int, k: int|
                    0 <= e < n && 0 <= k < self.entries@[e].projections@.len() implies #[trigger] self.projection_ok(e, k) by {
                    assert(s1.projection_ok(e, k));
                }
            }
            assert(self.menus_ok()) by {
                reveal(MenuSystem::menus_ok);
                assert forall|m: int| 0 <= m < self.menus@.len() implies #[trigger] self.menu_ok(m) by {
                    assert(s1.menu_ok(m));
                }
            }
            assert(self.containers_ok_except(Set::empty())) by {
                reveal(MenuSystem::containers_ok_except);
                reveal(MenuSystem::widgets_registered);
                assert forall|h: int| #[trigger] self.alive(h) && !Set::<int>::empty().contains(h) implies self.container_ok(h) by {
                    assert(s1.alive(h));
                    assert(s1.container_ok(h));
                    assert(s1.role_ok(h));
                    match self.widgets@[h].role {
                        Role::Item { entry, .. } => {
                            assert(self.entries@[entry as int].children == s1.entries@[entry as int].children);
                        },
                        _ => {},
                    }
                    assert(self.shown(h) == s1.shown(h));
                    assert forall|j: int| 0 <= j < self.shown(h).len() implies #[trigger] self.child_ok(h, j) by {
                        assert(s1.child_ok(h, j));
                    }
                }
            }
        }
        r
    }

}

} // verus!

verus! {

/// The two widgets agree on everything but whether they are alive.
pub open spec fn same_but_alive(a: Widget, b: Widget) -> bool {
    &&& a.role == b.role
    &&& a.label == b.label
    &&& a.sensitive == b.sensitive
    &&& a.active == b.active
    &&& a.children == b.children
}


/// Inserting a new value into a list without duplicates keeps it without
/// duplicates.
pub proof fn lemma_insert_no_duplicates(s: Seq<usize>, pos: int, x: usize)
    requires
        s.no_duplicates(),
        !s.contains(x),
        0 <= pos <= s.len(),
    ensures
        s.insert(pos, x).no_duplicates(),
{
    let t = s.insert(pos, x);
    assert forall|a: int, b: int| 0 <= a < t.len() && 0 <= b < t.len() && a != b implies t[a] != t[b] by {
        if a != pos && b != pos {
            let oa = if a < pos { a } else { a - 1 };
            let ob = if b < pos { b } else { b - 1 };
            assert(t[a] == s[oa]);
            assert(t[b] == s[ob]);
        } else if a == pos {
            let ob = if b < pos { b } else { b - 1 };
            assert(t[b] == s[ob]);
        } else {
            let oa = if a < pos { a } else { a - 1 };
            assert(t[a] == s[oa]);
        }
    }
}

/// Inserting into a list keeps what it contained.
pub proof fn lemma_insert_contains(s: Seq<usize>, pos: int, x: usize, y: usize)
    requires
        s.contains(y),
        0 <= pos <= s.len(),
    ensures
        s.insert(pos, x).contains(y),
{
    let i = choose|i: int| 0 <= i < s.len() && s[i] == y;
    if i < pos {
        assert(s.insert(pos, x)[i] == y);
    } else {
        assert(s.insert(pos, x)[i + 1] == y);
    }
}

/// Removing from a list without duplicates keeps it without duplicates.
pub proof fn lemma_remove_no_duplicates(s: Seq<usize>, idx: int)
    requires
        s.no_duplicates(),
        0 <= idx < s.len(),
    ensures
        s.remove(idx).no_duplicates(),
{
    let t = s.remove(idx);
    assert forall|a: int, b: int| 0 <= a < t.len() && 0 <= b < t.len() && a != b implies t[a] != t[b] by {
        let oa = if a < idx { a } else { a + 1 };
        let ob = if b < idx { b } else { b + 1 };
        assert(t[a] == s[oa]);
        assert(t[b] == s[ob]);
    }
}

/// Removing one position from a list keeps every other value it held.
pub proof fn lemma_remove_contains(s: Seq<usize>, idx: int, y: usize)
    requires
        s.contains(y),
        0 <= idx < s.len(),
        s[idx] != y,
    ensures
        s.remove(idx).contains(y),
{
    let i = choose|i: int| 0 <= i < s.len() && s[i] == y;
    if i < idx {
        assert(s.remove(idx)[i] == y);
    } else {
        assert(s.remove(idx)[i - 1] == y);
    }
}

} // verus!
