use muda::accelerator::{from_native_accelerator, is_valid_code, to_native_accelerator, Accelerator, Code, Modifiers};
use muda::engine::{MenuSystem, NativeOp, Role};
use muda::error::MenuError;
use muda::guard::try_begin;
use muda::items::{CheckMenuItem, Menu, MenuItem, MenuItemKind, PredefinedMenuItem, Submenu};
use muda::mnemonic::{from_native, to_native};
use muda::predefined::PredefinedKind;

fn chars(s: &str) -> Vec<char> {
    s.chars().collect()
}

fn entry_of(sys: &MenuSystem, widget: usize) -> usize {
    match sys.widgets[widget].role {
        Role::Item { entry, .. } => entry,
        Role::Bar { .. } => panic!("not an item widget"),
    }
}

fn child_entries(sys: &MenuSystem, container: usize) -> Vec<usize> {
    sys.widgets[container].children.iter().map(|w| entry_of(sys, *w)).collect()
}

struct Fixture {
    sys: MenuSystem,
    bar: Menu,
    file: Submenu,
    a: MenuItem,
    sep: PredefinedMenuItem,
    b: CheckMenuItem,
}

fn file_menu() -> Fixture {
    let mut sys = MenuSystem::new();
    let bar = Menu::new(&mut sys);
    let file = Submenu::new(&mut sys, "File", true);
    let a = MenuItem::new(&mut sys, "ItemA", true, None);
    let sep = PredefinedMenuItem::new(&mut sys, PredefinedKind::Separator, None);
    let b = CheckMenuItem::new(&mut sys, "B", true, false, None);
    file.append(&mut sys, a.kind()).unwrap();
    file.append(&mut sys, sep.kind()).unwrap();
    file.append(&mut sys, b.kind()).unwrap();
    bar.append(&mut sys, file.kind()).unwrap();
    Fixture { sys, bar, file, a, sep, b }
}

#[test]
fn file_menu_in_two_windows() {
    let mut f = file_menu();
    let w1 = f.bar.init_for_window(&mut f.sys, 1);
    let file_w1 = f.sys.widgets[w1].children[0];
    assert_eq!(entry_of(&f.sys, file_w1), f.file.index);
    assert_eq!(child_entries(&f.sys, file_w1), vec![f.a.index, f.sep.index, f.b.index]);
    let b_w1 = f.sys.widgets[file_w1].children[2];
    assert!(!f.sys.widgets[b_w1].active);

    let w2 = f.bar.init_for_window(&mut f.sys, 2);
    assert_ne!(w1, w2);
    let file_w2 = f.sys.widgets[w2].children[0];
    assert_ne!(file_w1, file_w2);
    assert_eq!(child_entries(&f.sys, file_w2), vec![f.a.index, f.sep.index, f.b.index]);
    let b_w2 = f.sys.widgets[file_w2].children[2];
    assert_ne!(b_w1, b_w2);

    // The user toggles B in the first window.
    f.sys.take_ops();
    let mut events = Vec::new();
    let started = f.sys.on_native_toggled(b_w1, true);
    assert_eq!(started, Some(f.b.index));
    // Setting the peers fires their own notifications while the pass runs.
    for op in f.sys.take_ops() {
        if let NativeOp::SetActive { handle, value } = op {
            assert_eq!(f.sys.on_native_toggled(handle, value), None);
        }
    }
    if let Some(e) = started {
        events.push(f.sys.finish_toggle(e));
    }
    assert_eq!(events, vec![f.b.id(&f.sys)]);
    assert!(f.sys.widgets[b_w1].active);
    assert!(f.sys.widgets[b_w2].active);
    assert!(f.b.is_checked(&f.sys));

    // A new item goes to position 1 under both windows.
    let c = MenuItem::new(&mut f.sys, "ItemC", true, None);
    f.file.insert(&mut f.sys, c.kind(), 1).unwrap();
    assert_eq!(child_entries(&f.sys, file_w1), vec![f.a.index, c.index, f.sep.index, f.b.index]);
    assert_eq!(child_entries(&f.sys, file_w2), vec![f.a.index, c.index, f.sep.index, f.b.index]);
}

#[test]
fn notifications_of_all_peers_at_once_give_one_event() {
    let mut f = file_menu();
    let mut peers = Vec::new();
    for w in 1..5u64 {
        let bar = f.bar.init_for_window(&mut f.sys, w);
        let file_w = f.sys.widgets[bar].children[0];
        peers.push(f.sys.widgets[file_w].children[2]);
    }
    let mut events = 0;
    let mut pass = None;
    for p in &peers {
        if let Some(e) = f.sys.on_native_toggled(*p, true) {
            events += 1;
            pass = Some(e);
        }
    }
    f.sys.finish_toggle(pass.unwrap());
    assert_eq!(events, 1);
    for p in &peers {
        assert!(f.sys.widgets[*p].active);
    }
}

#[test]
fn guard_lets_only_the_first_notification_through() {
    let mut syncing = false;
    assert!(try_begin(&mut syncing));
    assert!(syncing);
    assert!(!try_begin(&mut syncing));
    assert!(!try_begin(&mut syncing));
}

#[test]
fn programmatic_check_gives_no_event() {
    let mut f = file_menu();
    f.bar.init_for_window(&mut f.sys, 7);
    f.sys.take_ops();
    f.b.set_checked(&mut f.sys, true);
    let ops = f.sys.take_ops();
    assert!(!ops.is_empty());
    for op in ops {
        if let NativeOp::SetActive { handle, value } = op {
            assert!(value);
            assert_eq!(f.sys.on_native_toggled(handle, value), None);
        }
    }
    assert!(f.b.is_checked(&f.sys));
}

#[test]
fn window_attached_later_sees_current_state() {
    let mut f = file_menu();
    let w1 = f.bar.init_for_window(&mut f.sys, 1);
    f.a.set_text(&mut f.sys, "&Open");
    f.a.set_enabled(&mut f.sys, false);
    f.file.remove(&mut f.sys, f.sep.kind()).unwrap();
    let w2 = f.bar.init_for_window(&mut f.sys, 2);
    for w in [w1, w2] {
        let file_w = f.sys.widgets[w].children[0];
        assert_eq!(child_entries(&f.sys, file_w), vec![f.a.index, f.b.index]);
        let a_w = f.sys.widgets[file_w].children[0];
        assert_eq!(f.sys.widgets[a_w].label, chars("_Open"));
        assert!(!f.sys.widgets[a_w].sensitive);
    }
    assert_eq!(f.a.text(&f.sys), "&Open");
    assert!(!f.a.is_enabled(&f.sys));
}

#[test]
fn attaching_a_window_twice_keeps_its_bar() {
    let mut f = file_menu();
    let w1 = f.bar.init_for_window(&mut f.sys, 1);
    let n = f.sys.widgets.len();
    assert_eq!(f.bar.init_for_window(&mut f.sys, 1), w1);
    assert_eq!(f.sys.widgets.len(), n);
}

#[test]
fn removing_an_absent_item_fails() {
    let mut f = file_menu();
    let other = MenuItem::new(&mut f.sys, "Other", true, None);
    assert_eq!(f.file.remove(&mut f.sys, other.kind()), Err(MenuError::NotAChildOfThisMenu));
    assert_eq!(f.file.items(&f.sys).len(), 3);
}

#[test]
fn remove_at_past_the_end_removes_nothing() {
    let mut f = file_menu();
    f.bar.init_for_window(&mut f.sys, 1);
    let widgets = f.sys.widgets.len();
    assert_eq!(f.file.remove_at(&mut f.sys, 3), None);
    assert_eq!(f.file.items(&f.sys).len(), 3);
    assert_eq!(f.sys.widgets.len(), widgets);
}

#[test]
fn remove_at_returns_the_item_and_destroys_its_widgets() {
    let mut f = file_menu();
    let w1 = f.bar.init_for_window(&mut f.sys, 1);
    let file_w1 = f.sys.widgets[w1].children[0];
    let a_w1 = f.sys.widgets[file_w1].children[0];
    let removed = f.file.remove_at(&mut f.sys, 0);
    assert_eq!(removed, Some(MenuItemKind::Normal(f.a)));
    assert!(!f.sys.widgets[a_w1].alive);
    assert_eq!(child_entries(&f.sys, file_w1), vec![f.sep.index, f.b.index]);
    // The removed item can go back in.
    f.file.prepend(&mut f.sys, f.a.kind()).unwrap();
    assert_eq!(child_entries(&f.sys, file_w1), vec![f.a.index, f.sep.index, f.b.index]);
}

#[test]
fn removing_a_submenu_destroys_its_native_subtree() {
    let mut f = file_menu();
    let recent = Submenu::new(&mut f.sys, "Recent", true);
    let doc = MenuItem::new(&mut f.sys, "doc.txt", true, None);
    recent.append(&mut f.sys, doc.kind()).unwrap();
    f.file.append(&mut f.sys, recent.kind()).unwrap();
    let w1 = f.bar.init_for_window(&mut f.sys, 1);
    let file_w1 = f.sys.widgets[w1].children[0];
    let recent_w1 = f.sys.widgets[file_w1].children[3];
    let doc_w1 = f.sys.widgets[recent_w1].children[0];
    f.file.remove(&mut f.sys, recent.kind()).unwrap();
    assert!(!f.sys.widgets[recent_w1].alive);
    assert!(!f.sys.widgets[doc_w1].alive);
    assert!(f.sys.entries[doc.index].projections.is_empty());
}

#[test]
fn insert_past_the_end_fails() {
    let mut f = file_menu();
    let c = MenuItem::new(&mut f.sys, "C", true, None);
    assert_eq!(f.file.insert(&mut f.sys, c.kind(), 4), Err(MenuError::OutOfRange));
    assert_eq!(f.bar.insert(&mut f.sys, c.kind(), 2), Err(MenuError::OutOfRange));
    assert_eq!(f.file.items(&f.sys).len(), 3);
}

#[test]
fn an_item_stands_in_one_place() {
    let mut f = file_menu();
    let edit = Submenu::new(&mut f.sys, "Edit", true);
    assert_eq!(edit.append(&mut f.sys, f.a.kind()), Err(MenuError::AlreadyAttached));
    assert_eq!(f.bar.append(&mut f.sys, f.a.kind()), Err(MenuError::AlreadyAttached));
}

#[test]
fn a_submenu_cannot_contain_itself() {
    let mut sys = MenuSystem::new();
    let outer = Submenu::new(&mut sys, "Outer", true);
    let inner = Submenu::new(&mut sys, "Inner", true);
    assert_eq!(outer.append(&mut sys, outer.kind()), Err(MenuError::WouldContainItself));
    outer.append(&mut sys, inner.kind()).unwrap();
    assert_eq!(inner.append(&mut sys, outer.kind()), Err(MenuError::WouldContainItself));
    assert_eq!(inner.items(&sys).len(), 0);
    let holder = Submenu::new(&mut sys, "Holder", true);
    holder.append(&mut sys, outer.kind()).unwrap();
    assert_eq!(holder.items(&sys), vec![MenuItemKind::Submenu(outer)]);
}

#[test]
fn context_menu_is_tracked_like_a_bar() {
    let mut f = file_menu();
    let ctx = f.bar.context_menu(&mut f.sys);
    assert_eq!(f.bar.context_menu(&mut f.sys), ctx);
    let file_ctx = f.sys.widgets[ctx].children[0];
    f.a.set_text(&mut f.sys, "Renamed");
    let a_ctx = f.sys.widgets[file_ctx].children[0];
    assert_eq!(f.sys.widgets[a_ctx].label, chars("Renamed"));
}

#[test]
fn getters_without_native_peers_read_the_entry() {
    let mut sys = MenuSystem::new();
    let item = CheckMenuItem::new(&mut sys, "Wrap &Lines", false, true, None);
    assert_eq!(item.text(&sys), "Wrap &Lines");
    assert!(!item.is_enabled(&sys));
    assert!(item.is_checked(&sys));
}

#[test]
fn identifiers_are_unique_and_increasing() {
    let mut sys = MenuSystem::new();
    let a = MenuItem::new(&mut sys, "a", true, None);
    let b = MenuItem::new(&mut sys, "b", true, None);
    let c = Submenu::new(&mut sys, "c", true);
    assert!(a.id(&sys) < b.id(&sys));
    assert!(b.id(&sys) < c.id(&sys));
    assert_ne!(a.id(&sys), 0);
}

#[test]
fn mnemonic_translation() {
    assert_eq!(to_native(&chars("&File")), chars("_File"));
    assert_eq!(to_native(&chars("Save && Quit")), chars("Save & Quit"));
    assert_eq!(to_native(&chars("snake_case")), chars("snake__case"));
    assert_eq!(to_native(&chars("Plain")), chars("Plain"));
    assert_eq!(from_native(&chars("_File")), chars("&File"));
    assert_eq!(from_native(&chars("Save & Quit")), chars("Save && Quit"));
    assert_eq!(from_native(&chars("snake__case")), chars("snake_case"));
}

#[test]
fn mnemonic_round_trips() {
    for text in ["", "Open", "&Open", "Cu&t", "Save && Quit", "A && &B", "x_y"] {
        let t = chars(text);
        assert_eq!(from_native(&to_native(&t)), t);
    }
    for text in ["", "Open", "_Open", "Save & Quit", "x__y", "A & _B"] {
        let t = chars(text);
        assert_eq!(to_native(&from_native(&t)), t);
    }
}

#[test]
fn labels_carry_the_native_mnemonic() {
    let mut f = file_menu();
    let w = f.bar.init_for_window(&mut f.sys, 3);
    f.file.set_text(&mut f.sys, "&File");
    let file_w = f.sys.widgets[w].children[0];
    assert_eq!(f.sys.widgets[file_w].label, chars("_File"));
    assert_eq!(f.file.text(&f.sys), "&File");
}

#[test]
fn predefined_items() {
    let mut sys = MenuSystem::new();
    let copy = PredefinedMenuItem::new(&mut sys, PredefinedKind::Copy, None);
    assert_eq!(copy.text(&sys), "&Copy");
    let control_c = Accelerator {
        modifiers: Modifiers { shift: false, control: true, alt: false, meta: false },
        key: Code::Letter(2),
    };
    assert_eq!(sys.entries[copy.index].accelerator, Some(control_c));
    assert_eq!(PredefinedKind::Copy.xdo_keys(), "ctrl+c");
    assert_eq!(PredefinedKind::Cut.xdo_keys(), "ctrl+X");
    assert_eq!(PredefinedKind::About.xdo_keys(), "");
    assert_eq!(PredefinedKind::Separator.default_accelerator(), None);
    let named = PredefinedMenuItem::new(&mut sys, PredefinedKind::Quit, Some("Exit"));
    assert_eq!(named.text(&sys), "Exit");
}

#[test]
fn native_ops_describe_the_projection() {
    let mut f = file_menu();
    f.sys.take_ops();
    let w = f.bar.init_for_window(&mut f.sys, 9);
    let ops = f.sys.take_ops();
    assert!(matches!(ops[0], NativeOp::CreateBar { handle, window: 9 } if handle == w));
    let created = ops.iter().filter(|o| matches!(o, NativeOp::CreateItem { .. })).count();
    assert_eq!(created, 4);
}

#[test]
fn accelerators_translate_to_native_and_back() {
    let shift_d = Accelerator {
        modifiers: Modifiers { shift: true, control: false, alt: false, meta: false },
        key: Code::Letter(3),
    };
    assert_eq!(to_native_accelerator(&shift_d), (0x64, 1));
    let all = Accelerator {
        modifiers: Modifiers { shift: true, control: true, alt: true, meta: true },
        key: Code::Function(5),
    };
    assert_eq!(to_native_accelerator(&all), (0xffc2, 1 | 4 | 8 | 0x4000000));
    for a in [shift_d, all] {
        let (k, m) = to_native_accelerator(&a);
        assert_eq!(from_native_accelerator(k, m), Some(a));
    }
    assert_eq!(from_native_accelerator(0x1234, 0), None);
    assert!(!is_valid_code(Code::Letter(26)));
    assert!(is_valid_code(Code::Enter));
}

#[test]
fn removing_a_top_level_entry_updates_every_bar() {
    let mut f = file_menu();
    let edit = Submenu::new(&mut f.sys, "Edit", true);
    f.bar.append(&mut f.sys, edit.kind()).unwrap();
    let w1 = f.bar.init_for_window(&mut f.sys, 1);
    let ctx = f.bar.context_menu(&mut f.sys);
    assert_eq!(child_entries(&f.sys, w1), vec![f.file.index, edit.index]);
    f.bar.remove(&mut f.sys, f.file.kind()).unwrap();
    assert_eq!(child_entries(&f.sys, w1), vec![edit.index]);
    assert_eq!(child_entries(&f.sys, ctx), vec![edit.index]);
    assert_eq!(f.bar.remove(&mut f.sys, f.file.kind()), Err(MenuError::NotAChildOfThisMenu));
    assert_eq!(f.bar.items(&f.sys), vec![MenuItemKind::Submenu(edit)]);
}

#[test]
fn show_and_hide_need_an_attached_window() {
    let mut f = file_menu();
    assert_eq!(f.bar.hide_for_window(&mut f.sys, 5), Err(MenuError::NotInitialized));
    assert_eq!(f.bar.show_for_window(&mut f.sys, 5), Err(MenuError::NotInitialized));
    let w = f.bar.init_for_window(&mut f.sys, 5);
    f.sys.take_ops();
    assert_eq!(f.bar.hide_for_window(&mut f.sys, 5), Ok(()));
    let ops = f.sys.take_ops();
    assert!(matches!(ops[0], NativeOp::Hide { handle } if handle == w));
    assert_eq!(f.bar.show_for_window(&mut f.sys, 5), Ok(()));
}

#[test]
fn with_items_builds_a_filled_submenu() {
    let mut sys = MenuSystem::new();
    let a = MenuItem::new(&mut sys, "a", true, None);
    let b = CheckMenuItem::new(&mut sys, "b", true, true, None);
    let sub = Submenu::with_items(&mut sys, "S", true, &vec![a.kind(), b.kind()]).unwrap();
    assert_eq!(sub.items(&sys), vec![a.kind(), b.kind()]);
    assert_eq!(sub.text(&sys), "S");
    let again = Submenu::with_items(&mut sys, "T", true, &vec![a.kind()]);
    assert_eq!(again, Err(MenuError::AlreadyAttached));
    let c = MenuItem::new(&mut sys, "c", true, None);
    let d = MenuItem::new(&mut sys, "d", true, None);
    sub.insert_items(&mut sys, &vec![c.kind(), d.kind()], 1).unwrap();
    assert_eq!(sub.items(&sys), vec![a.kind(), c.kind(), d.kind(), b.kind()]);
    let e = MenuItem::new(&mut sys, "e", true, None);
    assert_eq!(sub.insert_items(&mut sys, &vec![e.kind()], 9), Err(MenuError::OutOfRange));
}

#[test]
fn detaching_a_window_destroys_its_projection_only() {
    let mut f = file_menu();
    assert_eq!(f.bar.remove_for_window(&mut f.sys, 1), Err(MenuError::NotInitialized));
    let w1 = f.bar.init_for_window(&mut f.sys, 1);
    let w2 = f.bar.init_for_window(&mut f.sys, 2);
    let file_w1 = f.sys.widgets[w1].children[0];
    let b_w1 = f.sys.widgets[file_w1].children[2];
    f.bar.remove_for_window(&mut f.sys, 1).unwrap();
    assert!(!f.sys.widgets[w1].alive);
    assert!(!f.sys.widgets[file_w1].alive);
    assert!(!f.sys.widgets[b_w1].alive);
    assert!(f.sys.widgets[w2].alive);
    assert_eq!(f.bar.hide_for_window(&mut f.sys, 1), Err(MenuError::NotInitialized));
    // The remaining window still follows every change.
    f.b.set_checked(&mut f.sys, true);
    let file_w2 = f.sys.widgets[w2].children[0];
    let b_w2 = f.sys.widgets[file_w2].children[2];
    assert!(f.sys.widgets[b_w2].active);
    assert_eq!(f.sys.entries[f.b.index].projections.len(), 1);
    // Attaching again projects afresh.
    let again = f.bar.init_for_window(&mut f.sys, 1);
    assert_ne!(again, w1);
    let file_again = f.sys.widgets[again].children[0];
    assert_eq!(child_entries(&f.sys, file_again), vec![f.a.index, f.sep.index, f.b.index]);
    assert!(f.sys.widgets[f.sys.widgets[file_again].children[2]].active);
}

#[test]
fn insert_items_is_all_or_nothing() {
    let mut f = file_menu();
    let w = f.bar.init_for_window(&mut f.sys, 1);
    let c = MenuItem::new(&mut f.sys, "C", true, None);
    let d = MenuItem::new(&mut f.sys, "D", true, None);
    // `a` already stands in the submenu: nothing of the batch is inserted.
    assert_eq!(f.file.append_items(&mut f.sys, &vec![c.kind(), f.a.kind()]), Err(MenuError::AlreadyAttached));
    assert_eq!(f.file.items(&f.sys).len(), 3);
    // A repeated item is refused as a whole too.
    assert_eq!(f.file.insert_items(&mut f.sys, &vec![c.kind(), c.kind()], 0), Err(MenuError::AlreadyAttached));
    // A submenu cannot go into itself.
    let g = Submenu::new(&mut f.sys, "G", true);
    assert_eq!(g.prepend_items(&mut f.sys, &vec![c.kind(), g.kind()]), Err(MenuError::WouldContainItself));
    assert_eq!(g.items(&f.sys).len(), 0);
    assert_eq!(f.file.items(&f.sys).len(), 3);
    f.file.prepend_items(&mut f.sys, &vec![c.kind(), d.kind()]).unwrap();
    let file_w = f.sys.widgets[w].children[0];
    assert_eq!(child_entries(&f.sys, file_w), vec![c.index, d.index, f.a.index, f.sep.index, f.b.index]);
}

#[test]
fn submenus_with_chosen_identifiers() {
    let mut sys = MenuSystem::new();
    let a = MenuItem::new(&mut sys, "a", true, None);
    let s = Submenu::with_id(&mut sys, 100, "Chosen", true).unwrap();
    assert_eq!(s.id(&sys), 100);
    assert_eq!(s.into_id(&sys), 100);
    assert!(Submenu::with_id(&mut sys, 100, "Again", true).is_none());
    let taken = a.id(&sys);
    assert!(Submenu::with_id(&mut sys, taken, "Taken", true).is_none());
    let later = MenuItem::new(&mut sys, "later", true, None);
    assert!(later.id(&sys) > 100);
    let t = Submenu::with_id_and_items(&mut sys, 7, "T", true, &vec![a.kind()]).unwrap().unwrap();
    assert_eq!(t.items(&sys), vec![a.kind()]);
    assert_eq!(t.id(&sys), 7);
}

#[test]
fn predefined_default_texts() {
    let mut sys = MenuSystem::new();
    let all = PredefinedMenuItem::new(&mut sys, PredefinedKind::SelectAll, None);
    assert_eq!(all.text(&sys), "Select &All");
    assert_eq!(PredefinedKind::CloseWindow.default_text(), "C&lose Window");
}
