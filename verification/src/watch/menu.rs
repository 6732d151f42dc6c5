//! The watch-mode menu: a non-empty list of keyed items and a selected
//! index, moved left, right or directly by key.

use vstd::prelude::*;
use crate::error::Error;

verus! {

/// One menu entry: a display text `key:Name`, a description, the key
/// that selects it and the value it stands for.
#[derive(Debug)]
pub struct MenuItem<T: Clone + Copy> {
    description: String,
    display: String,
    key: char,
    value: T,
}

impl<T: Clone + Copy> MenuItem<T> {
    pub closed spec fn spec_description(self) -> Seq<char> {
        self.description@
    }

    pub closed spec fn spec_display(self) -> Seq<char> {
        self.display@
    }

    pub closed spec fn spec_key(self) -> char {
        self.key
    }

    pub closed spec fn spec_value(self) -> T {
        self.value
    }

    /// Whether two items carry the same texts, key and value.
    pub open spec fn same(a: MenuItem<T>, b: MenuItem<T>) -> bool {
        a.spec_description() == b.spec_description()
            && a.spec_display() == b.spec_display()
            && a.spec_key() == b.spec_key() && a.spec_value() == b.spec_value()
    }

    pub fn new(value: T, name: &str, description: &str, key: char) -> (r: MenuItem<T>)
        ensures
            r.spec_description() == description@,
            r.spec_display() == seq![key, ':'] + name@,
            r.spec_key() == key,
            r.spec_value() == value,
    {
        let mut display: Vec<char> = Vec::new();
        display.push(key);
        display.push(':');
        crate::text::push_str_chars(&mut display, name);
        proof {
            assert(display@ =~= seq![key, ':'] + name@);
        }
        MenuItem {
            description: description.to_owned(),
            display: crate::text::from_chars(&display),
            key,
            value,
        }
    }

    pub fn description(&self) -> (r: &String)
        ensures
            r@ == self.spec_description(),
    {
        &self.description
    }

    pub fn display(&self) -> (r: &String)
        ensures
            r@ == self.spec_display(),
    {
        &self.display
    }

    pub fn key(&self) -> (r: char)
        ensures
            r == self.spec_key(),
    {
        self.key
    }

    pub fn value(&self) -> (r: T)
        ensures
            r == self.spec_value(),
    {
        self.value
    }

    /// An owned copy of the item.
    pub fn duplicate(&self) -> (r: MenuItem<T>)
        ensures
            MenuItem::same(r, *self),
    {
        MenuItem {
            description: self.description.clone(),
            display: self.display.clone(),
            key: self.key,
            value: self.value,
        }
    }
}

/// Item lists that are the same item by item.
pub open spec fn menu_items_same<T: Clone + Copy>(
    a: Seq<MenuItem<T>>, b: Seq<MenuItem<T>>,
) -> bool {
    a.len() == b.len() && forall|i: int| 0 <= i < a.len()
        ==> MenuItem::same(#[trigger] a[i], b[i])
}

/// A menu: at least one item, one of them selected.
#[derive(Debug)]
pub struct Menu<T: Clone + Copy> {
    items: Vec<MenuItem<T>>,
    selected_index: usize,
}

impl<T: Clone + Copy> Menu<T> {
    #[verifier::type_invariant]
    spec fn wf(self) -> bool {
        self.items@.len() > 0 && self.selected_index < self.items@.len()
    }

    pub closed spec fn spec_items(self) -> Seq<MenuItem<T>> {
        self.items@
    }

    pub closed spec fn spec_selected(self) -> int {
        self.selected_index as int
    }

    /// Builds a menu over the items, the first one selected; an empty
    /// list is refused.
    pub fn new(items: Vec<MenuItem<T>>) -> (r: Result<Menu<T>, Error>)
        ensures
            r is Ok <==> items@.len() > 0,
            r matches Ok(m) ==> m.spec_items() == items@ && m.spec_selected() == 0,
            r matches Err(e) ==> e is NoMenuItems,
    {
        if items.len() == 0 {
            Err(Error::NoMenuItems)
        } else {
            Ok(Menu { items, selected_index: 0 })
        }
    }

    /// The same menu with another selected index.
    fn new_selection(&self, selected_index: usize) -> (r: Menu<T>)
        requires
            selected_index < self.spec_items().len(),
        ensures
            menu_items_same(r.spec_items(), self.spec_items()),
            r.spec_selected() == selected_index,
    {
        proof {
            use_type_invariant(self);
        }
        let mut items: Vec<MenuItem<T>> = Vec::new();
        let mut i: usize = 0;
        while i < self.items.len()
            invariant
                i <= self.items@.len(),
                items@.len() == i,
                forall|j: int| 0 <= j < i
                    ==> MenuItem::same(#[trigger] items@[j], self.items@[j]),
            decreases self.items@.len() - i,
        {
            items.push(self.items[i].duplicate());
            i = i + 1;
        }
        Menu { items, selected_index }
    }

    /// The menu with the item of key `c` selected, when there is one.
    pub fn select(&self, c: char) -> (r: Option<Menu<T>>)
        ensures
            r is Some <==> exists|i: int| 0 <= i < self.spec_items().len()
                && (#[trigger] self.spec_items()[i]).spec_key() == c,
            r matches Some(m) ==> {
                &&& menu_items_same(m.spec_items(), self.spec_items())
                &&& 0 <= m.spec_selected() < self.spec_items().len()
                &&& self.spec_items()[m.spec_selected()].spec_key() == c
                &&& forall|j: int| 0 <= j < m.spec_selected()
                    ==> (#[trigger] self.spec_items()[j]).spec_key() != c
            },
    {
        proof {
            use_type_invariant(self);
        }
        let mut index: usize = 0;
        while index < self.items.len()
            invariant
                index <= self.items@.len(),
                self.selected_index < self.items@.len(),
                forall|j: int| 0 <= j < index
                    ==> (#[trigger] self.items@[j]).spec_key() != c,
            decreases self.items@.len() - index,
        {
            if self.items[index].key() == c {
                return Some(self.new_selection(index));
            }
            index = index + 1;
        }
        None
    }

    /// Moves the selection one left, wrapping to the last item.
    pub fn left(&self) -> (r: Menu<T>)
        ensures
            menu_items_same(r.spec_items(), self.spec_items()),
            r.spec_selected() == if self.spec_selected() == 0 {
                self.spec_items().len() - 1
            } else {
                self.spec_selected() - 1
            },
    {
        proof {
            use_type_invariant(self);
        }
        let new_index = if self.selected_index == 0 {
            self.items.len() - 1
        } else {
            self.selected_index - 1
        };
        self.new_selection(new_index)
    }

    /// Moves the selection one right, wrapping to the first item.
    pub fn right(&self) -> (r: Menu<T>)
        ensures
            menu_items_same(r.spec_items(), self.spec_items()),
            r.spec_selected() == if self.spec_selected() + 1 >= self.spec_items().len() {
                0int
            } else {
                self.spec_selected() + 1
            },
    {
        proof {
            use_type_invariant(self);
        }
        let n = self.items.len();
        let mut new_index = self.selected_index + 1;
        if new_index >= n {
            new_index = 0;
        }
        self.new_selection(new_index)
    }

    /// The description of the selected item.
    pub fn description(&self) -> (r: &String)
        ensures
            0 <= self.spec_selected() < self.spec_items().len(),
            r@ == self.spec_items()[self.spec_selected()].spec_description(),
    {
        proof {
            use_type_invariant(self);
        }
        self.items[self.selected_index].description()
    }

    /// The value of the selected item.
    pub fn value(&self) -> (r: T)
        ensures
            0 <= self.spec_selected() < self.spec_items().len(),
            r == self.spec_items()[self.spec_selected()].spec_value(),
    {
        proof {
            use_type_invariant(self);
        }
        self.items[self.selected_index].value()
    }
}

} // verus!
