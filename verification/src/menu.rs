//! A hierarchical menu and the moves through it.

use vstd::prelude::*;

verus! {

/// What entering the selected item has led to.
pub enum MenuSignal {
    /// Nothing was chosen: no item was selected, or a submenu was opened.
    Nothing,
    /// The item of this name, one without children, was chosen.
    Selected(String),
}

/// An item of the menu; one with children opens a submenu.
#[derive(Debug)]
pub struct MenuItem {
    pub name: String,
    pub children: Vec<MenuItem>,
}

/// The items of the level that the moves of `stack` lead to from `root`.
/// A move to a position that the level does not have stays on the level.
pub open spec fn items_at(root: Seq<MenuItem>, stack: Seq<usize>) -> Seq<MenuItem>
    decreases stack.len(),
{
    if stack.len() == 0 {
        root
    } else {
        let level = items_at(root, stack.drop_last());
        if stack.last() < level.len() {
            level[stack.last() as int].children@
        } else {
            level
        }
    }
}

/// The position selected after a move up from `selected` on a level of
/// `len` items: the one before, and the last one from the first.
pub open spec fn moved_up(selected: Option<usize>, len: nat) -> Option<usize> {
    if len == 0 {
        selected
    } else {
        match selected {
            Some(i) => if i == 0 {
                Some((len - 1) as usize)
            } else {
                Some((i - 1) as usize)
            },
            None => Some(0),
        }
    }
}

/// The position selected after a move down from `selected` on a level of
/// `len` items: the one after, and the first one from the last.
pub open spec fn moved_down(selected: Option<usize>, len: nat) -> Option<usize> {
    if len == 0 {
        selected
    } else {
        match selected {
            Some(i) => if i >= len - 1 {
                Some(0)
            } else {
                Some((i + 1) as usize)
            },
            None => Some(0),
        }
    }
}

impl Clone for MenuItem {
    /// A copy of the item with copies of all that is below it.
    fn clone(&self) -> (item: MenuItem)
        ensures
            item.name == self.name,
            item.children@.len() == self.children@.len(),
        decreases self,
    {
        let mut children: Vec<MenuItem> = Vec::new();
        let mut i: usize = 0;
        while i < self.children.len()
            invariant
                0 <= i <= self.children.len(),
                children@.len() == i,
            decreases self.children.len() - i,
        {
            children.push(self.children[i].clone());
            i = i + 1;
        }
        MenuItem { name: self.name.clone(), children }
    }
}

impl MenuItem {
    /// An item that opens the submenu `children`.
    pub fn new(name: &str, children: Vec<MenuItem>) -> (item: MenuItem)
        ensures
            item.name@ == name@,
            item.children == children,
    {
        MenuItem { name: name.to_owned(), children }
    }

    /// An item without children.
    pub fn leaf(name: &str) -> (item: MenuItem)
        ensures
            item.name@ == name@,
            item.children@.len() == 0,
    {
        MenuItem { name: name.to_owned(), children: Vec::new() }
    }
}

/// Where the user stands in the menu.
#[derive(Debug)]
pub struct MenuState {
    /// The items of the top level.
    pub root_items: Vec<MenuItem>,
    /// The positions entered, from the top level down.
    pub nav_stack: Vec<usize>,
    /// The position selected on the current level.
    pub selected: Option<usize>,
    /// The name of the item chosen last, until the user moves back.
    pub last_selected_item: Option<String>,
}

impl MenuState {
    /// The items of the current level.
    pub open spec fn current(&self) -> Seq<MenuItem> {
        items_at(self.root_items@, self.nav_stack@)
    }

    /// The menu of `items`, at the top level with the first item selected.
    pub fn new(items: Vec<MenuItem>) -> (state: MenuState)
        ensures
            state.root_items == items,
            state.nav_stack@.len() == 0,
            state.selected == Some(0usize),
            state.last_selected_item is None,
    {
        MenuState {
            root_items: items,
            nav_stack: Vec::new(),
            selected: Some(0),
            last_selected_item: None,
        }
    }

    /// The items of the current level.
    pub fn get_current_items(&self) -> (items: &[MenuItem])
        ensures
            items@ == self.current(),
    {
        let mut current_list: &Vec<MenuItem> = &self.root_items;
        let mut k: usize = 0;
        while k < self.nav_stack.len()
            invariant
                0 <= k <= self.nav_stack.len(),
                current_list@ == items_at(self.root_items@, self.nav_stack@.take(k as int)),
            decreases self.nav_stack.len() - k,
        {
            let index: usize = self.nav_stack[k];
            proof {
                assert(self.nav_stack@.take(k as int + 1).drop_last() == self.nav_stack@.take(
                    k as int,
                ));
            }
            if index < current_list.len() {
                current_list = &current_list[index].children;
            }
            k = k + 1;
        }
        proof {
            assert(self.nav_stack@.take(k as int) == self.nav_stack@);
        }
        current_list.as_slice()
    }

    /// Selects the item before the selected one, and the last one from the
    /// first. On an empty level nothing changes.
    pub fn up(&mut self)
        ensures
            final(self).root_items == old(self).root_items,
            final(self).nav_stack == old(self).nav_stack,
            final(self).last_selected_item == old(self).last_selected_item,
            final(self).selected == moved_up(old(self).selected, old(self).current().len()),
    {
        let len: usize = self.get_current_items().len();
        if len == 0 {
            return ;
        }
        let i: usize = match self.selected {
            Some(i) => {
                if i == 0 {
                    len - 1
                } else {
                    i - 1
                }
            },
            None => 0,
        };
        self.selected = Some(i);
    }

    /// Selects the item after the selected one, and the first one from the
    /// last. On an empty level nothing changes.
    pub fn down(&mut self)
        ensures
            final(self).root_items == old(self).root_items,
            final(self).nav_stack == old(self).nav_stack,
            final(self).last_selected_item == old(self).last_selected_item,
            final(self).selected == moved_down(old(self).selected, old(self).current().len()),
    {
        let len: usize = self.get_current_items().len();
        if len == 0 {
            return ;
        }
        let i: usize = match self.selected {
            Some(i) => {
                if i >= len - 1 {
                    0
                } else {
                    i + 1
                }
            },
            None => 0,
        };
        self.selected = Some(i);
    }

    /// Enters the selected item. One with children opens its submenu, with
    /// the first item selected there. Any other is chosen: its name is
    /// kept and returned, the empty name where the selected position is
    /// none of the level.
    pub fn enter(&mut self) -> (signal: MenuSignal)
        ensures
            final(self).root_items == old(self).root_items,
            match old(self).selected {
                None => signal is Nothing && *final(self) == *old(self),
                Some(idx) => if idx < old(self).current().len() && old(self).current()[idx as int]
                    .children@.len() > 0 {
                    &&& signal is Nothing
                    &&& final(self).nav_stack@ == old(self).nav_stack@.push(idx)
                    &&& final(self).selected == Some(0usize)
                    &&& final(self).last_selected_item == old(self).last_selected_item
                } else {
                    let name = if idx < old(self).current().len() {
                        old(self).current()[idx as int].name@
                    } else {
                        Seq::<char>::empty()
                    };
                    &&& signal matches MenuSignal::Selected(chosen)
                    &&& chosen@ == name
                    &&& final(self).nav_stack == old(self).nav_stack
                    &&& final(self).selected == old(self).selected
                    &&& final(self).last_selected_item matches Some(kept)
                    &&& kept@ == name
                },
            },
    {
        match self.selected {
            Some(selected_idx) => {
                let items = self.get_current_items();
                let has_children: bool;
                let name: String;
                if selected_idx < items.len() {
                    has_children = items[selected_idx].children.len() > 0;
                    name = items[selected_idx].name.clone();
                } else {
                    has_children = false;
                    name = String::new();
                }
                if has_children {
                    self.nav_stack.push(selected_idx);
                    self.selected = Some(0);
                    MenuSignal::Nothing
                } else {
                    self.last_selected_item = Some(name.clone());
                    MenuSignal::Selected(name)
                }
            },
            None => MenuSignal::Nothing,
        }
    }

    /// Moves back to the level above, selects there the item that had been
    /// entered, and forgets the item chosen last. At the top level nothing
    /// changes.
    pub fn back(&mut self)
        ensures
            final(self).root_items == old(self).root_items,
            old(self).nav_stack@.len() == 0 ==> {
                &&& final(self).nav_stack@ == old(self).nav_stack@
                &&& final(self).selected == old(self).selected
                &&& final(self).last_selected_item == old(self).last_selected_item
            },
            old(self).nav_stack@.len() > 0 ==> {
                &&& final(self).nav_stack@ == old(self).nav_stack@.drop_last()
                &&& final(self).selected == Some(old(self).nav_stack@.last())
                &&& final(self).last_selected_item is None
            },
    {
        match self.nav_stack.pop() {
            Some(last_index) => {
                self.selected = Some(last_index);
                self.last_selected_item = None;
            },
            None => {},
        }
    }
}

} // verus!
