//! The single-line menu of the plain terminal front end: items named
//! by their first letter, rendered as one colored line.

use vstd::prelude::*;
use crate::error::Error;
use crate::text;

verus! {

/// What `str::to_lowercase` returns: a function of the characters
/// alone.
pub uninterp spec fn lower_of(s: Seq<char>) -> Seq<char>;

/// Relies on `str::to_lowercase`: the result depends on the characters
/// alone, and a non-empty string stays non-empty (every character
/// lowercases to at least one character).
#[verifier::external_body]
fn lowercase(s: &str) -> (r: String)
    ensures
        r@ == lower_of(s@),
        s@.len() > 0 ==> r@.len() > 0,
{
    s.to_lowercase()
}

/// Relies on crossterm's `Stylize::dark_red` and the `Display` of its
/// styled content.  What that writes around the text depends on the
/// process environment (the no-color flag, a runtime switch, the
/// platform's console), so nothing is promised of the result; the
/// plain text underneath is the specified part, `render_text`.
#[verifier::external_body]
fn style_dark_red(s: &str) -> String {
    crossterm::style::Stylize::dark_red(s).to_string()
}

/// Relies on crossterm's `Stylize::dark_blue`, as `style_dark_red`:
/// nothing is promised of the result.
#[verifier::external_body]
fn style_dark_blue(s: &str) -> String {
    crossterm::style::Stylize::dark_blue(s).to_string()
}

/// One menu entry, selected by the first letter of its name.
#[derive(Debug)]
pub struct MenuItem<T: Clone + Copy> {
    name: String,
    description: String,
    key: char,
    value: T,
}

/// The plain text of a rendered item: the name with its first
/// character parenthesized, a leading space unless first, a trailing
/// space always.
pub open spec fn item_text_spec(name: Seq<char>, first: bool) -> Seq<char> {
    (if first { Seq::<char>::empty() } else { seq![' '] })
        + seq!['('] + seq![name[0]] + seq![')'] + name.skip(1) + seq![' ']
}

impl<T: Clone + Copy> MenuItem<T> {
    #[verifier::type_invariant]
    spec fn wf(self) -> bool {
        self.name@.len() > 0
    }

    pub closed spec fn spec_name(self) -> Seq<char> {
        self.name@
    }

    pub closed spec fn spec_description(self) -> Seq<char> {
        self.description@
    }

    pub closed spec fn spec_key(self) -> char {
        self.key
    }

    pub closed spec fn spec_value(self) -> T {
        self.value
    }

    pub open spec fn same(a: MenuItem<T>, b: MenuItem<T>) -> bool {
        a.spec_name() == b.spec_name()
            && a.spec_description() == b.spec_description()
            && a.spec_key() == b.spec_key() && a.spec_value() == b.spec_value()
    }

    /// Builds an item; its key is the first letter of the lowercased
    /// name.
    pub fn new(value: T, name: &str, description: &str) -> (r: MenuItem<T>)
        requires
            name@.len() > 0,
        ensures
            r.spec_name() == name@,
            r.spec_description() == description@,
            r.spec_key() == lower_of(name@)[0],
            r.spec_value() == value,
    {
        let low = lowercase(name);
        let lv = text::to_chars(low.as_str());
        let key = lv[0];
        MenuItem {
            name: name.to_owned(),
            description: description.to_owned(),
            key,
            value,
        }
    }

    pub fn name(&self) -> (r: &String)
        ensures
            r@ == self.spec_name(),
    {
        &self.name
    }

    pub fn description(&self) -> (r: &String)
        ensures
            r@ == self.spec_description(),
    {
        &self.description
    }

    pub fn key(&self) -> (r: char)
        ensures
            r == self.spec_key(),
    {
        self.key
    }

    pub fn value(&self) -> (r: T)
        ensures
            r == self.spec_value(),
    {
        self.value
    }

    /// The plain text of the rendered item, before any coloring.
    pub fn render_text(&self, first: bool) -> (r: String)
        ensures
            r@ == item_text_spec(self.spec_name(), first),
    {
        proof {
            use_type_invariant(self);
        }
        let nv = text::to_chars(self.name.as_str());
        let mut out: Vec<char> = Vec::new();
        if !first {
            out.push(' ');
        }
        out.push('(');
        out.push(nv[0]);
        out.push(')');
        let mut i: usize = 1;
        while i < nv.len()
            invariant
                1 <= i <= nv@.len(),
                nv@.len() > 0,
                nv@ == self.spec_name(),
                out@ == (if first { Seq::<char>::empty() } else { seq![' '] })
                    + seq!['('] + seq![nv@[0]] + seq![')'] + nv@.subrange(1, i as int),
            decreases nv@.len() - i,
        {
            out.push(nv[i]);
            i = i + 1;
            proof {
                assert(out@ =~= (if first { Seq::<char>::empty() } else { seq![' '] })
                    + seq!['('] + seq![nv@[0]] + seq![')']
                    + nv@.subrange(1, i as int));
            }
        }
        out.push(' ');
        proof {
            assert(nv@.subrange(1, nv@.len() as int) =~= nv@.skip(1));
            assert(out@ =~= item_text_spec(self.spec_name(), first));
        }
        text::from_chars(&out)
    }

    /// Renders the item for the terminal, dark red when selected and
    /// dark blue otherwise.  The color codes come from crossterm and
    /// depend on the environment, so only the text underneath,
    /// `render_text`, carries a contract.
    pub fn render(&self, first: bool, selected: bool) -> String {
        let plain = self.render_text(first);
        if selected {
            style_dark_red(plain.as_str())
        } else {
            style_dark_blue(plain.as_str())
        }
    }

    /// An owned copy of the item.
    pub fn duplicate(&self) -> (r: MenuItem<T>)
        ensures
            MenuItem::same(r, *self),
    {
        proof {
            use_type_invariant(self);
        }
        MenuItem {
            name: self.name.clone(),
            description: self.description.clone(),
            key: self.key,
            value: self.value,
        }
    }
}

/// The plain text of the menu line up to item `k`: the item texts
/// joined by four spaces.
pub open spec fn menu_text_spec<T: Clone + Copy>(
    items: Seq<MenuItem<T>>, k: int,
) -> Seq<char>
    decreases k,
{
    if k <= 0 {
        Seq::empty()
    } else {
        menu_text_spec(items, k - 1)
            + (if k - 1 > 0 { "    "@ } else { Seq::<char>::empty() })
            + item_text_spec(items[k - 1].spec_name(), k - 1 == 0)
    }
}

/// A keyed menu line: at least one item, one of them selected.
#[derive(Debug)]
pub struct Menu<T: Clone + Copy> {
    items: Vec<MenuItem<T>>,
    selected_index: usize,
}

impl<T: Clone + Copy> Menu<T> {
    #[verifier::type_invariant]
    spec fn wf(self) -> bool {
        self.items@.len() > 0 && self.selected_index < self.items@.len()
    }

    pub closed spec fn spec_items(self) -> Seq<MenuItem<T>> {
        self.items@
    }

    pub closed spec fn spec_selected(self) -> int {
        self.selected_index as int
    }

    /// Builds a menu over the items, the first one selected; an empty
    /// list is refused.
    pub fn new(items: Vec<MenuItem<T>>) -> (r: Result<Menu<T>, Error>)
        ensures
            r is Ok <==> items@.len() > 0,
            r matches Ok(m) ==> m.spec_items() == items@ && m.spec_selected() == 0,
            r matches Err(e) ==> e is NoMenuItems,
    {
        if items.len() == 0 {
            Err(Error::NoMenuItems)
        } else {
            Ok(Menu { items, selected_index: 0 })
        }
    }

    /// Selects the item of key `c` and hands out its value, when there
    /// is one.
    pub fn select(&mut self, c: char) -> (r: Option<T>)
        ensures
            final(self).spec_items() == old(self).spec_items(),
            r is Some <==> exists|i: int| 0 <= i < old(self).spec_items().len()
                && (#[trigger] old(self).spec_items()[i]).spec_key() == c,
            r matches Some(v) ==> {
                &&& 0 <= final(self).spec_selected() < old(self).spec_items().len()
                &&& old(self).spec_items()[final(self).spec_selected()].spec_key() == c
                &&& v == old(self).spec_items()[final(self).spec_selected()].spec_value()
                &&& forall|j: int| 0 <= j < final(self).spec_selected()
                    ==> (#[trigger] old(self).spec_items()[j]).spec_key() != c
            },
            r is None ==> final(self).spec_selected() == old(self).spec_selected(),
    {
        proof {
            use_type_invariant(&*self);
        }
        let mut index: usize = 0;
        let n = self.items.len();
        while index < n
            invariant
                n == self.items@.len(),
                self.items@ == old(self).spec_items(),
                self.selected_index < n,
                index <= n,
                self.selected_index == old(self).spec_selected(),
                forall|j: int| 0 <= j < index
                    ==> (#[trigger] self.items@[j]).spec_key() != c,
            decreases n - index,
        {
            if self.items[index].key() == c {
                self.selected_index = index;
                return Some(self.items[index].value());
            }
            index = index + 1;
        }
        None
    }

    /// The plain text of the whole menu line, before any coloring.
    pub fn render_text(&self) -> (r: String)
        ensures
            r@ == menu_text_spec(self.spec_items(), self.spec_items().len() as int),
    {
        proof {
            use_type_invariant(self);
        }
        let mut out: Vec<char> = Vec::new();
        let mut i: usize = 0;
        let n = self.items.len();
        while i < n
            invariant
                n == self.items@.len(),
                self.selected_index < n,
                i <= n,
                out@ == menu_text_spec(self.spec_items(), i as int),
            decreases n - i,
        {
            if i > 0 {
                text::push_str_chars(&mut out, "    ");
            }
            let piece = self.items[i].render_text(i == 0);
            text::push_str_chars(&mut out, piece.as_str());
            i = i + 1;
            proof {
                assert(out@ =~= menu_text_spec(self.spec_items(), i as int));
            }
        }
        text::from_chars(&out)
    }

    /// Renders the whole menu line for the terminal, the selected item
    /// dark red and the rest dark blue.  The coloring comes from
    /// crossterm and depends on the environment; only the plain text,
    /// `render_text`, carries a contract.
    pub fn render(&self) -> String {
        proof {
            use_type_invariant(self);
        }
        let mut line = String::new();
        let mut i: usize = 0;
        let n = self.items.len();
        while i < n
            invariant
                n == self.items@.len(),
                self.selected_index < n,
                i <= n,
            decreases n - i,
        {
            if i > 0 {
                line.append("    ");
            }
            let piece = self.items[i].render(i == 0, i == self.selected_index);
            line.append(piece.as_str());
            i = i + 1;
        }
        line
    }

    /// Moves the selection one left, wrapping to the last item.
    pub fn left(&mut self)
        ensures
            final(self).spec_items() == old(self).spec_items(),
            final(self).spec_selected() == if old(self).spec_selected() == 0 {
                old(self).spec_items().len() - 1
            } else {
                old(self).spec_selected() - 1
            },
    {
        proof {
            use_type_invariant(&*self);
        }
        if self.selected_index == 0 {
            self.selected_index = self.items.len() - 1;
        } else {
            self.selected_index = self.selected_index - 1;
        }
    }

    /// Moves the selection one right, wrapping to the first item.
    pub fn right(&mut self)
        ensures
            final(self).spec_items() == old(self).spec_items(),
            final(self).spec_selected()
                == if old(self).spec_selected() + 1 >= old(self).spec_items().len() {
                    0int
                } else {
                    old(self).spec_selected() + 1
                },
    {
        proof {
            use_type_invariant(&*self);
        }
        let n = self.items.len();
        let mut new_index = self.selected_index + 1;
        if new_index >= n {
            new_index = 0;
        }
        self.selected_index = new_index;
    }

    /// The description of the selected item.
    pub fn description(&self) -> (r: &String)
        ensures
            0 <= self.spec_selected() < self.spec_items().len(),
            r@ == self.spec_items()[self.spec_selected()].spec_description(),
    {
        proof {
            use_type_invariant(self);
        }
        self.items[self.selected_index].description()
    }

    /// The value of the selected item.
    pub fn value(&self) -> (r: T)
        ensures
            0 <= self.spec_selected() < self.spec_items().len(),
            r == self.spec_items()[self.spec_selected()].spec_value(),
    {
        proof {
            use_type_invariant(self);
        }
        self.items[self.selected_index].value()
    }
}

} // verus!
