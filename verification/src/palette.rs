//! The element palette: an ordered list of named, colored states.
//! An element's identity is its position in the list.

use vstd::prelude::*;

verus! {

/// An operation dereferenced a palette index at or beyond the current length.
#[derive(PartialEq, Eq, Structural, Clone, Copy, Debug)]
pub struct IndexError;

/// A color with four 8-bit channels.
#[derive(PartialEq, Eq, Structural, Clone, Copy, Debug)]
pub struct Rgba {
    pub r: u8,
    pub g: u8,
    pub b: u8,
    pub a: u8,
}

impl Rgba {
    pub open spec fn black() -> Rgba {
        Rgba { r: 0, g: 0, b: 0, a: 255 }
    }

    pub open spec fn white() -> Rgba {
        Rgba { r: 255, g: 255, b: 255, a: 255 }
    }

    /// The color given to freshly appended palette elements.
    pub open spec fn default_color() -> Rgba {
        Rgba { r: 0, g: 255, b: 0, a: 255 }
    }
}

/// One named, colored state of the automaton's alphabet.
pub struct Element {
    pub color: Rgba,
    pub name: String,
}

/// The mathematical value of an `Element`: its color and the characters of its name.
pub struct ElementV {
    pub color: Rgba,
    pub name: Seq<char>,
}

impl View for Element {
    type V = ElementV;

    open spec fn view(&self) -> ElementV {
        ElementV { color: self.color, name: self.name@ }
    }
}

impl Element {
    /// The value of a freshly appended palette element.
    pub open spec fn spec_default() -> ElementV {
        ElementV { color: Rgba::default_color(), name: "New element"@ }
    }
}

impl Default for Element {
    fn default() -> (r: Element)
        ensures
            r@ == Element::spec_default(),
    {
        Element { color: Rgba { r: 0, g: 255, b: 0, a: 255 }, name: "New element".to_owned() }
    }
}

impl Clone for Element {
    fn clone(&self) -> (r: Element)
        ensures
            r@ == self@,
    {
        Element { color: self.color, name: self.name.clone() }
    }
}

/// The set of enabled symmetry axes. Only the horizontal mirror
/// (reflection across the vertical centerline) exists today.
#[derive(PartialEq, Eq, Structural, Clone, Copy, Debug)]
pub struct Symmetry {
    pub horizontal: bool,
}

/// The palette view: the value of each element, in palette order.
pub open spec fn palette_view(elements: Seq<Element>) -> Seq<ElementV> {
    elements.map_values(|e: Element| e@)
}

/// The palette and the symmetry record: everything a `Sim` holds
/// besides the rule table itself.
pub struct SimIntrinsics {
    pub elements: Vec<Element>,
    pub symmetry: Symmetry,
}

impl SimIntrinsics {
    /// The built-in two-element palette: "Off" (black) and "On" (white),
    /// with the horizontal mirror enabled.
    pub open spec fn spec_default_palette() -> Seq<ElementV> {
        seq![
            ElementV { color: Rgba::black(), name: "Off"@ },
            ElementV { color: Rgba::white(), name: "On"@ },
        ]
    }
}

impl Default for SimIntrinsics {
    fn default() -> (r: SimIntrinsics)
        ensures
            palette_view(r.elements@) == SimIntrinsics::spec_default_palette(),
            r.symmetry == (Symmetry { horizontal: true }),
    {
        let mut elements: Vec<Element> = Vec::new();
        elements.push(Element { color: Rgba { r: 0, g: 0, b: 0, a: 255 }, name: "Off".to_owned() });
        elements.push(
            Element { color: Rgba { r: 255, g: 255, b: 255, a: 255 }, name: "On".to_owned() },
        );
        let r = SimIntrinsics { elements, symmetry: Symmetry { horizontal: true } };
        proof {
            assert(palette_view(r.elements@) =~= SimIntrinsics::spec_default_palette());
        }
        r
    }
}

impl SimIntrinsics {
    /// Grow or shrink the palette to exactly `n` elements. Elements below
    /// `min(old length, n)` are preserved unchanged; growth appends freshly
    /// constructed default elements; shrinking truncates.
    ///
    /// Shrinking may leave stored rules referencing removed indices; callers
    /// that own a rule table must re-validate it (`Sim` does so).
    pub fn resize(&mut self, n: usize)
        ensures
            final(self).elements@.len() == n,
            final(self).symmetry == old(self).symmetry,
            forall|i: int|
                0 <= i < n && i < old(self).elements@.len() ==> final(self).elements@[i] == old(
                    self,
                ).elements@[i],
            forall|i: int|
                old(self).elements@.len() <= i < n ==> #[trigger] final(self).elements@[i]@
                    == Element::spec_default(),
    {
        if n <= self.elements.len() {
            self.elements.truncate(n);
        } else {
            let ghost orig = self.elements@;
            while self.elements.len() < n
                invariant
                    self.symmetry == old(self).symmetry,
                    orig.len() <= self.elements@.len() <= n,
                    forall|i: int| 0 <= i < orig.len() ==> self.elements@[i] == orig[i],
                    forall|i: int|
                        orig.len() <= i < self.elements@.len() ==> #[trigger] self.elements@[i]@
                            == Element::spec_default(),
                decreases n - self.elements@.len(),
            {
                self.elements.push(Element::default());
            }
        }
    }

    /// The element at `idx`, or `IndexError` when `idx` is out of range.
    pub fn get(&self, idx: usize) -> (r: Result<&Element, IndexError>)
        ensures
            r is Ok <==> idx < self.elements@.len(),
            r matches Ok(e) ==> *e == self.elements@[idx as int],
    {
        if idx < self.elements.len() {
            Ok(&self.elements[idx])
        } else {
            Err(IndexError)
        }
    }

    /// Append one freshly constructed default element.
    pub fn add(&mut self)
        requires
            old(self).elements@.len() < usize::MAX,
        ensures
            final(self).symmetry == old(self).symmetry,
            final(self).elements@.len() == old(self).elements@.len() + 1,
            forall|i: int|
                0 <= i < old(self).elements@.len() ==> final(self).elements@[i] == old(
                    self,
                ).elements@[i],
            final(self).elements@.last()@ == Element::spec_default(),
    {
        self.elements.push(Element::default());
    }

    /// Remove the element at `idx`, shifting every later element down by one.
    ///
    /// Rules referencing the removed or shifted indices become stale; callers
    /// that own a rule table must re-validate it (`Sim` does so).
    pub fn remove(&mut self, idx: usize) -> (r: Result<(), IndexError>)
        ensures
            r is Ok <==> idx < old(self).elements@.len(),
            r is Ok ==> final(self).elements@ == old(self).elements@.remove(idx as int),
            r is Err ==> *final(self) == *old(self),
            final(self).symmetry == old(self).symmetry,
    {
        if idx < self.elements.len() {
            self.elements.remove(idx);
            Ok(())
        } else {
            Err(IndexError)
        }
    }

    /// Replace the element at `idx` (the editor's rename / recolor).
    pub fn set(&mut self, idx: usize, element: Element) -> (r: Result<(), IndexError>)
        ensures
            r is Ok <==> idx < old(self).elements@.len(),
            r is Ok ==> final(self).elements@ == old(self).elements@.update(idx as int, element),
            r is Err ==> *final(self) == *old(self),
            final(self).symmetry == old(self).symmetry,
    {
        if idx < self.elements.len() {
            self.elements.remove(idx);
            self.elements.insert(idx, element);
            proof {
                assert(self.elements@ =~= old(self).elements@.update(idx as int, element));
            }
            Ok(())
        } else {
            Err(IndexError)
        }
    }

    pub fn len(&self) -> (n: usize)
        ensures
            n == self.elements@.len(),
    {
        self.elements.len()
    }
}

} // verus!
