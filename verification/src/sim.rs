//! `Sim`: the palette, the rule table and the symmetry record together —
//! the unit an editor operates on and the unit that is persisted.
//!
//! Every mutating operation keeps referential integrity: every index in
//! every stored rule stays below the palette length.

use vstd::prelude::*;
use crate::block::Block;
use crate::palette::{Element, ElementV, IndexError, SimIntrinsics, Symmetry, palette_view};
use crate::table::{
    Rule, RuleTable, has_key, orbit_unique, remap_entries, table_in_range, table_lookup,
    unique_keys, value_of,
};

verus! {

/// The mathematical value of a `Sim`: the palette element values in order,
/// the stored rule entries in order, and the symmetry flag.
pub struct SimV {
    pub palette: Seq<ElementV>,
    pub rules: Seq<Rule>,
    pub horizontal: bool,
}

/// The value of the built-in starting state: the two-element palette
/// ("Off" black, "On" white), no rules, horizontal mirror enabled.
pub open spec fn starting_v() -> SimV {
    SimV {
        palette: SimIntrinsics::spec_default_palette(),
        rules: Seq::empty(),
        horizontal: true,
    }
}

/// The authoring model: one palette, one rule table, one symmetry record.
pub struct Sim {
    intrin: SimIntrinsics,
    rules: RuleTable,
}

impl View for Sim {
    type V = SimV;

    closed spec fn view(&self) -> SimV {
        SimV {
            palette: palette_view(self.intrin.elements@),
            rules: self.rules@,
            horizontal: self.intrin.symmetry.horizontal,
        }
    }
}

impl Default for Sim {
    fn default() -> (r: Sim)
        ensures
            r@ == starting_v(),
            r.wf(),
    {
        Sim::starting()
    }
}

impl Sim {
    /// Referential integrity: the table is a mapping and every stored
    /// index references a live palette element.
    pub open spec fn wf(self) -> bool {
        unique_keys(self@.rules) && table_in_range(self@.rules, self@.palette.len())
    }

    /// The built-in starting state: the two-element palette ("Off" black,
    /// "On" white), no rules, horizontal mirror enabled.
    pub fn starting() -> (r: Sim)
        ensures
            r@ == starting_v(),
            r.wf(),
            orbit_unique(r@.rules),
    {
        let r = Sim { intrin: SimIntrinsics::default(), rules: RuleTable::new() };
        proof {
            assert(r@.rules =~= starting_v().rules);
        }
        r
    }

    /// Assemble a `Sim` from raw parts, refusing a table with duplicate
    /// keys or with an index at or beyond the palette length.
    pub fn assemble(intrin: SimIntrinsics, rules: Vec<Rule>) -> (r: Option<Sim>)
        ensures
            r is Some <==> (unique_keys(rules@) && table_in_range(
                rules@,
                intrin.elements@.len(),
            )),
            r matches Some(s) ==> {
                &&& s@.palette == palette_view(intrin.elements@)
                &&& s@.rules == rules@
                &&& s@.horizontal == intrin.symmetry.horizontal
                &&& s.wf()
            },
    {
        let n = intrin.elements.len();
        let len = rules.len();
        let mut i: usize = 0;
        while i < len
            invariant
                i <= len,
                len == rules@.len(),
                n == intrin.elements@.len(),
                forall|j: int|
                    0 <= j < i ==> (#[trigger] rules@[j]).input.spec_in_range(n as nat)
                        && rules@[j].output.spec_in_range(n as nat),
            decreases len - i,
        {
            if !rules[i].input.in_range(n) || !rules[i].output.in_range(n) {
                return None;
            }
            i = i + 1;
        }
        match RuleTable::from_entries(rules) {
            Some(table) => Some(Sim { intrin, rules: table }),
            None => None,
        }
    }

    pub fn num_elements(&self) -> (n: usize)
        ensures
            n == self@.palette.len(),
    {
        self.intrin.len()
    }

    /// The element at `idx`, or `IndexError` when `idx` is out of range.
    pub fn element(&self, idx: usize) -> (r: Result<&Element, IndexError>)
        ensures
            r is Ok <==> idx < self@.palette.len(),
            r matches Ok(e) ==> e@ == self@.palette[idx as int],
    {
        self.intrin.get(idx)
    }

    pub fn symmetry(&self) -> (s: Symmetry)
        ensures
            s.horizontal == self@.horizontal,
    {
        self.intrin.symmetry
    }

    /// Enable or disable the horizontal mirror. Stored entries are kept
    /// as they are; only lookup behavior changes.
    pub fn set_horizontal(&mut self, on: bool)
        requires
            old(self).wf(),
        ensures
            final(self).wf(),
            final(self)@.horizontal == on,
            final(self)@.palette == old(self)@.palette,
            final(self)@.rules == old(self)@.rules,
    {
        self.intrin.symmetry.horizontal = on;
    }

    /// The stored entries, one per rule (with the mirror enabled, one per
    /// orbit, in canonical orientation).
    pub fn rules(&self) -> (r: &Vec<Rule>)
        ensures
            r@ == self@.rules,
    {
        self.rules.rules()
    }

    /// The palette elements, in order.
    pub fn elements(&self) -> (r: &Vec<Element>)
        ensures
            palette_view(r@) == self@.palette,
    {
        &self.intrin.elements
    }

    /// Replace the element at `idx` (the editor's rename / recolor);
    /// indices and rules are untouched.
    pub fn set_element(&mut self, idx: usize, element: Element) -> (r: Result<(), IndexError>)
        requires
            old(self).wf(),
        ensures
            final(self).wf(),
            r is Ok <==> idx < old(self)@.palette.len(),
            r is Ok ==> final(self)@.palette == old(self)@.palette.update(idx as int, element@),
            r is Err ==> final(self)@ == old(self)@,
            final(self)@.rules == old(self)@.rules,
            final(self)@.horizontal == old(self)@.horizontal,
    {
        let r = self.intrin.set(idx, element);
        proof {
            if r is Ok {
                assert(self@.palette =~= old(self)@.palette.update(idx as int, element@));
            }
        }
        r
    }

    pub fn num_rules(&self) -> (n: usize)
        ensures
            n == self@.rules.len(),
    {
        self.rules.len()
    }

    /// The output block for `input`, honoring the symmetry record:
    /// the direct entry if stored, else — with the mirror enabled — the
    /// entry for `mirror(input)` with its output mirrored back.
    pub fn lookup(&self, input: Block) -> (r: Option<Block>)
        requires
            self.wf(),
        ensures
            r == table_lookup(self@.rules, input, self@.horizontal),
    {
        self.rules.lookup(input, self.intrin.symmetry.horizontal)
    }

    /// Insert or overwrite the mapping for `input`, rejecting blocks that
    /// reference an index at or beyond the palette length.
    ///
    /// `Ok(true)` reports a symmetry conflict: the write happened with the
    /// mirror enabled, `input` is not self-mirrored, and the orbit already
    /// resolved `input` to a different output. The new rule wins either way.
    pub fn set_rule(&mut self, input: Block, output: Block) -> (r: Result<bool, IndexError>)
        requires
            old(self).wf(),
        ensures
            final(self).wf(),
            final(self)@.palette == old(self)@.palette,
            final(self)@.horizontal == old(self)@.horizontal,
            r is Ok <==> (input.spec_in_range(old(self)@.palette.len())
                && output.spec_in_range(old(self)@.palette.len())),
            r is Err ==> final(self)@ == old(self)@,
            r is Ok ==> table_lookup(final(self)@.rules, input, old(self)@.horizontal) == Some(
                output,
            ),
            r is Ok && old(self)@.horizontal && input.spec_mirror() != input ==> table_lookup(
                final(self)@.rules,
                input.spec_mirror(),
                true,
            ) == Some(output.spec_mirror()),
            r is Ok && old(self)@.horizontal ==> forall|q: Block|
                q != input && q != input.spec_mirror() ==> table_lookup(final(self)@.rules, q, true)
                    == table_lookup(old(self)@.rules, q, true),
            r is Ok && !old(self)@.horizontal ==> forall|q: Block|
                q != input ==> table_lookup(final(self)@.rules, q, false) == table_lookup(
                    old(self)@.rules,
                    q,
                    false,
                ),
            r matches Ok(conflict) ==> conflict == (old(self)@.horizontal && input.spec_mirror()
                != input && match table_lookup(old(self)@.rules, input, true) {
                Some(o) => o != output,
                None => false,
            }),
            orbit_unique(old(self)@.rules) && (old(self)@.horizontal || input.spec_mirror()
                == input || !has_key(old(self)@.rules, input.spec_mirror())) ==> orbit_unique(
                final(self)@.rules,
            ),
    {
        let n = self.intrin.len();
        if !input.in_range(n) || !output.in_range(n) {
            return Err(IndexError);
        }
        let conflict = self.rules.set_rule(input, output, self.intrin.symmetry.horizontal);
        Ok(conflict)
    }

    /// Remove the stored mapping for `input` (with the mirror enabled, the
    /// one entry answering for its whole orbit); a no-op when absent.
    pub fn remove_rule(&mut self, input: Block)
        requires
            old(self).wf(),
        ensures
            final(self).wf(),
            final(self)@.palette == old(self)@.palette,
            final(self)@.horizontal == old(self)@.horizontal,
            table_lookup(final(self)@.rules, input, old(self)@.horizontal) == None::<Block>,
            old(self)@.horizontal ==> table_lookup(
                final(self)@.rules,
                input.spec_mirror(),
                true,
            ) == None::<Block>,
            old(self)@.horizontal ==> forall|q: Block|
                q != input && q != input.spec_mirror() ==> table_lookup(final(self)@.rules, q, true)
                    == table_lookup(old(self)@.rules, q, true),
            !old(self)@.horizontal ==> forall|q: Block|
                q != input ==> table_lookup(final(self)@.rules, q, false) == table_lookup(
                    old(self)@.rules,
                    q,
                    false,
                ),
            orbit_unique(old(self)@.rules) ==> orbit_unique(final(self)@.rules),
    {
        self.rules.remove_rule(input, self.intrin.symmetry.horizontal);
    }

    /// Grow or shrink the palette to exactly `n` elements and re-validate
    /// the table: growth appends default elements and keeps every rule;
    /// shrinking truncates the palette and drops every rule that references
    /// a removed index (the shrink-cascade policy).
    pub fn resize_palette(&mut self, n: usize)
        requires
            old(self).wf(),
        ensures
            final(self).wf(),
            final(self)@.horizontal == old(self)@.horizontal,
            final(self)@.palette.len() == n,
            forall|i: int|
                0 <= i < n && i < old(self)@.palette.len() ==> final(self)@.palette[i] == old(
                    self,
                )@.palette[i],
            forall|i: int|
                old(self)@.palette.len() <= i < n ==> final(self)@.palette[i]
                    == Element::spec_default(),
            forall|q: Block|
                has_key(final(self)@.rules, q) <==> (has_key(old(self)@.rules, q)
                    && q.spec_in_range(n as nat) && value_of(old(self)@.rules, q).spec_in_range(
                    n as nat,
                )),
            forall|q: Block|
                has_key(final(self)@.rules, q) ==> value_of(final(self)@.rules, q) == value_of(
                    old(self)@.rules,
                    q,
                ),
            n >= old(self)@.palette.len() ==> final(self)@.rules == old(self)@.rules,
            orbit_unique(old(self)@.rules) ==> orbit_unique(final(self)@.rules),
    {
        let ghost old_len = self@.palette.len();
        self.intrin.resize(n);
        proof {
            if n >= old_len {
                assert(table_in_range(self.rules@, n as nat));
            }
        }
        self.rules.drop_out_of_range(n);
        proof {
            assert forall|i: int| 0 <= i < n && i < old(self)@.palette.len() implies self@.palette[i] == old(self)@.palette[i] by {
                assert(self.intrin.elements@[i] == old(self).intrin.elements@[i]);
            }
        }
    }

    /// Append one freshly constructed default element; every existing
    /// element and every stored rule is unchanged.
    pub fn add_element(&mut self)
        requires
            old(self).wf(),
            old(self)@.palette.len() < usize::MAX,
        ensures
            final(self).wf(),
            final(self)@.horizontal == old(self)@.horizontal,
            final(self)@.palette.len() == old(self)@.palette.len() + 1,
            forall|i: int|
                0 <= i < old(self)@.palette.len() ==> final(self)@.palette[i] == old(
                    self,
                )@.palette[i],
            final(self)@.palette.last() == Element::spec_default(),
            final(self)@.rules == old(self)@.rules,
    {
        self.intrin.add();
        proof {
            assert(table_in_range(self.rules@, self@.palette.len()));
        }
    }

    /// Remove the element at `idx` and cascade: rules that mention `idx`
    /// are dropped; in every surviving rule the indices above `idx` shift
    /// down by one, so each keeps referencing the same element.
    pub fn remove_element(&mut self, idx: usize) -> (r: Result<(), IndexError>)
        requires
            old(self).wf(),
        ensures
            final(self).wf(),
            final(self)@.horizontal == old(self)@.horizontal,
            r is Ok <==> idx < old(self)@.palette.len(),
            r is Err ==> final(self)@ == old(self)@,
            r is Ok ==> final(self)@.palette == old(self)@.palette.remove(idx as int),
            r is Ok ==> final(self)@.rules == remap_entries(old(self)@.rules, idx as nat),
            orbit_unique(old(self)@.rules) ==> orbit_unique(final(self)@.rules),
    {
        let ghost old_len = self@.palette.len();
        match self.intrin.remove(idx) {
            Ok(()) => {
                self.rules.remap_removed(idx);
                proof {
                    assert(self@.palette =~= old(self)@.palette.remove(idx as int));
                    assert(old_len > idx);
                    assert(table_in_range(self.rules@, (old_len - 1) as nat));
                }
                Ok(())
            },
            Err(e) => Err(e),
        }
    }
}

/// Law: referential integrity. In a well-formed `Sim` — and every
/// operation above returns one — each surviving rule's input and output
/// indices are below the palette length.
pub proof fn lemma_referential_integrity(s: Sim)
    requires
        s.wf(),
    ensures
        forall|i: int|
            0 <= i < s@.rules.len() ==> (#[trigger] s@.rules[i]).input.spec_in_range(
                s@.palette.len(),
            ) && s@.rules[i].output.spec_in_range(s@.palette.len()),
{
}

} // verus!
