//! The rule table: a partial, symmetry-aware mapping from input blocks
//! to output blocks. Keys are unique; when the horizontal mirror is
//! enabled, one stored entry (kept in canonical orientation) answers
//! lookups for both members of its mirror orbit.

use vstd::prelude::*;
use crate::block::Block;
use crate::block::lemma_shift_removed_injective;
use crate::block::lemma_shift_removed_in_range;

verus! {

/// One stored mapping from an input block to its resulting output block.
#[derive(PartialEq, Eq, Structural, Clone, Copy, Debug)]
pub struct Rule {
    pub input: Block,
    pub output: Block,
}

/// Some entry has `k` as its input block.
pub open spec fn has_key(entries: Seq<Rule>, k: Block) -> bool {
    exists|i: int| 0 <= i < entries.len() && (#[trigger] entries[i]).input == k
}

/// The index of the entry whose input block is `k`.
pub open spec fn key_at(entries: Seq<Rule>, k: Block) -> int {
    choose|i: int| 0 <= i < entries.len() && (#[trigger] entries[i]).input == k
}

/// The output stored for input block `k`.
pub open spec fn value_of(entries: Seq<Rule>, k: Block) -> Block
    recommends
        has_key(entries, k),
{
    entries[key_at(entries, k)].output
}

/// No two entries share an input block: the table is a mapping.
pub open spec fn unique_keys(entries: Seq<Rule>) -> bool {
    forall|i: int, j: int|
        #![trigger entries[i], entries[j]]
        0 <= i < entries.len() && 0 <= j < entries.len() && i != j ==> entries[i].input
            != entries[j].input
}

/// At most one orientation of each mirror orbit is stored. Writes made
/// with the mirror enabled keep this; writes made with it disabled can
/// break it (both orientations may then be stored independently).
pub open spec fn orbit_unique(entries: Seq<Rule>) -> bool {
    forall|i: int, j: int|
        #![trigger entries[i], entries[j]]
        0 <= i < entries.len() && 0 <= j < entries.len() && i != j ==> entries[i].input
            != entries[j].input.spec_mirror()
}

/// Every stored index references an element of a palette of length `n`.
pub open spec fn table_in_range(entries: Seq<Rule>, n: nat) -> bool {
    forall|i: int|
        0 <= i < entries.len() ==> (#[trigger] entries[i]).input.spec_in_range(n)
            && entries[i].output.spec_in_range(n)
}

/// What a lookup observes: the direct entry for `input` if present;
/// otherwise, when the horizontal mirror is enabled, the entry for
/// `mirror(input)` with its output mirrored back; otherwise nothing.
pub open spec fn table_lookup(entries: Seq<Rule>, input: Block, horizontal: bool) -> Option<
    Block,
> {
    if has_key(entries, input) {
        Some(value_of(entries, input))
    } else if horizontal && has_key(entries, input.spec_mirror()) {
        Some(value_of(entries, input.spec_mirror()).spec_mirror())
    } else {
        None
    }
}

/// Law: the table is a well-defined mapping. Under unique keys, any two
/// entries holding the same input block are the same entry, so the stored
/// output for a key is unambiguous and two lookups of the same input
/// without an intervening mutation agree.
pub proof fn lemma_lookup_well_defined(entries: Seq<Rule>, i: int, j: int)
    requires
        unique_keys(entries),
        0 <= i < entries.len(),
        0 <= j < entries.len(),
        entries[i].input == entries[j].input,
    ensures
        i == j,
        entries[i].output == entries[j].output,
{
}

/// Under unique keys, an entry holding `k` is the entry `value_of` speaks of.
pub proof fn lemma_value_at(entries: Seq<Rule>, i: int, k: Block)
    requires
        unique_keys(entries),
        0 <= i < entries.len(),
        entries[i].input == k,
    ensures
        has_key(entries, k),
        key_at(entries, k) == i,
        value_of(entries, k) == entries[i].output,
{
    assert(has_key(entries, k));
    let j = key_at(entries, k);
    assert(0 <= j < entries.len() && entries[j].input == k);
    lemma_lookup_well_defined(entries, i, j);
}

/// Removing the entry at `i` removes exactly its key and keeps every other
/// key with its stored output.
pub proof fn lemma_remove_entry(entries: Seq<Rule>, i: int)
    requires
        unique_keys(entries),
        0 <= i < entries.len(),
    ensures
        unique_keys(entries.remove(i)),
        !has_key(entries.remove(i), entries[i].input),
        forall|q: Block|
            q != entries[i].input ==> (has_key(entries.remove(i), q) <==> has_key(entries, q)),
        forall|q: Block|
            q != entries[i].input && has_key(entries, q) ==> value_of(entries.remove(i), q)
                == value_of(entries, q),
        orbit_unique(entries) ==> orbit_unique(entries.remove(i)),
        forall|n: nat| table_in_range(entries, n) ==> table_in_range(entries.remove(i), n),
{
    let rem = entries.remove(i);
    assert(forall|j: int| 0 <= j < i ==> rem[j] == entries[j]);
    assert(forall|j: int| i <= j < rem.len() ==> rem[j] == entries[j + 1]);
    assert forall|q: Block| q != entries[i].input && has_key(entries, q) implies has_key(rem, q)
        && value_of(rem, q) == value_of(entries, q) by {
        let j = key_at(entries, q);
        assert(0 <= j < entries.len() && entries[j].input == q);
        if j < i {
            assert(rem[j].input == q);
            lemma_value_at(rem, j, q);
        } else {
            assert(rem[j - 1].input == q);
            lemma_value_at(rem, j - 1, q);
        }
        lemma_value_at(entries, j, q);
    }
    assert forall|q: Block| has_key(rem, q) implies q != entries[i].input && has_key(entries, q) by {
        let j = key_at(rem, q);
        assert(0 <= j < rem.len() && rem[j].input == q);
        if j < i {
            assert(entries[j].input == q);
        } else {
            assert(entries[j + 1].input == q);
        }
    }
}

/// Appending an entry with a fresh key adds exactly that key.
pub proof fn lemma_push_entry(entries: Seq<Rule>, r: Rule)
    requires
        unique_keys(entries),
        !has_key(entries, r.input),
    ensures
        unique_keys(entries.push(r)),
        has_key(entries.push(r), r.input),
        value_of(entries.push(r), r.input) == r.output,
        forall|q: Block| q != r.input ==> (has_key(entries.push(r), q) <==> has_key(entries, q)),
        forall|q: Block|
            q != r.input && has_key(entries, q) ==> value_of(entries.push(r), q) == value_of(
                entries,
                q,
            ),
        orbit_unique(entries) && !has_key(entries, r.input.spec_mirror()) ==> orbit_unique(
            entries.push(r),
        ),
        forall|n: nat|
            table_in_range(entries, n) && r.input.spec_in_range(n) && r.output.spec_in_range(n)
                ==> table_in_range(entries.push(r), n),
{
    let p = entries.push(r);
    assert(forall|j: int| 0 <= j < entries.len() ==> p[j] == entries[j]);
    assert(p[entries.len() as int] == r);
    assert forall|i: int, j: int|
        0 <= i < p.len() && 0 <= j < p.len() && i != j implies #[trigger] p[i].input
        != #[trigger] p[j].input by {
        if i < entries.len() && j < entries.len() {
        } else if i == entries.len() {
            assert(p[j] == entries[j]);
            assert(!(entries[j].input == r.input));
        } else {
            assert(p[i] == entries[i]);
            assert(!(entries[i].input == r.input));
        }
    }
    lemma_value_at(p, entries.len() as int, r.input);
    assert forall|q: Block| q != r.input && has_key(entries, q) implies has_key(p, q) && value_of(
        p,
        q,
    ) == value_of(entries, q) by {
        let j = key_at(entries, q);
        lemma_value_at(entries, j, q);
        assert(p[j].input == q);
        lemma_value_at(p, j, q);
    }
    assert forall|q: Block| q != r.input && has_key(p, q) implies has_key(entries, q) by {
        let j = key_at(p, q);
        assert(0 <= j < p.len() && p[j].input == q);
        assert(j != entries.len());
        assert(entries[j].input == q);
    }
    if orbit_unique(entries) && !has_key(entries, r.input.spec_mirror()) {
        assert forall|i: int, j: int|
            0 <= i < p.len() && 0 <= j < p.len() && i != j implies #[trigger] p[i].input
            != #[trigger] p[j].input.spec_mirror() by {
            if i < entries.len() && j < entries.len() {
            } else if i == entries.len() {
                // p[j].input.spec_mirror() == r.input would mean
                // entries[j].input == r.input.spec_mirror(), a stored mirror.
                assert(p[j] == entries[j]);
                if p[i].input == p[j].input.spec_mirror() {
                    assert(entries[j].input == r.input.spec_mirror());
                    assert(has_key(entries, r.input.spec_mirror()));
                }
            } else {
                assert(p[i] == entries[i]);
                if p[i].input == p[j].input.spec_mirror() {
                    assert(entries[i].input == r.input.spec_mirror());
                    assert(has_key(entries, r.input.spec_mirror()));
                }
            }
        }
    }
}

/// Law: orbit consistency. With the mirror enabled and at most one
/// orientation of each orbit stored, the two members of a non-self-mirrored
/// orbit resolve to mirrored outputs (and are defined together).
///
/// A self-mirrored input (`mirror(p) == p`) is excluded: its single entry
/// constrains only that orbit member, and its stored output need not be
/// self-mirrored.
pub proof fn lemma_orbit_consistency(entries: Seq<Rule>, p: Block)
    requires
        unique_keys(entries),
        orbit_unique(entries),
        p.spec_mirror() != p,
    ensures
        table_lookup(entries, p.spec_mirror(), true) == (match table_lookup(entries, p, true) {
            Some(o) => Some(o.spec_mirror()),
            None => None::<Block>,
        }),
{
    let m = p.spec_mirror();
    assert(m.spec_mirror() == p);
    if has_key(entries, p) && has_key(entries, m) {
        let i = key_at(entries, p);
        let j = key_at(entries, m);
        assert(0 <= i < entries.len() && entries[i].input == p);
        assert(0 <= j < entries.len() && entries[j].input == m);
        assert(i != j);
        assert(entries[i].input != entries[j].input.spec_mirror());
        assert(false);
    }
}

/// Law: with the mirror enabled, the table behaves as if, for every
/// stored entry, both the entry and its mirrored counterpart were
/// present: the stored input resolves to the stored output, and the
/// mirrored input to the mirrored output.
pub proof fn lemma_stored_orbit_visible(entries: Seq<Rule>, i: int)
    requires
        unique_keys(entries),
        orbit_unique(entries),
        0 <= i < entries.len(),
    ensures
        table_lookup(entries, entries[i].input, true) == Some(entries[i].output),
        entries[i].input.spec_mirror() != entries[i].input ==> table_lookup(
            entries,
            entries[i].input.spec_mirror(),
            true,
        ) == Some(entries[i].output.spec_mirror()),
{
    lemma_value_at(entries, i, entries[i].input);
    let p = entries[i].input;
    let m = p.spec_mirror();
    if m != p {
        if has_key(entries, m) {
            let j = key_at(entries, m);
            assert(0 <= j < entries.len() && entries[j].input == m);
            assert(i != j);
            assert(entries[j].input != entries[i].input.spec_mirror());
            assert(false);
        }
        assert(m.spec_mirror() == p);
    }
}

/// A key of `pre` below `bound` whose rule survives a shrink to `n` elements.
pub open spec fn surviving_key(pre: Seq<Rule>, bound: int, n: nat, q: Block) -> bool {
    exists|j: int|
        0 <= j < bound && (#[trigger] pre[j]).input == q && pre[j].input.spec_in_range(n)
            && pre[j].output.spec_in_range(n)
}

/// The rule with both blocks re-aimed after the palette element at `x`
/// was removed.
pub open spec fn shifted_rule(r: Rule, x: nat) -> Rule {
    Rule { input: r.input.spec_shift_removed(x), output: r.output.spec_shift_removed(x) }
}

/// The table after the palette element at `x` was removed: rules that
/// mention `x` are dropped, the indices of the rest shift down past `x`.
pub open spec fn remap_entries(entries: Seq<Rule>, x: nat) -> Seq<Rule>
    decreases entries.len(),
{
    if entries.len() == 0 {
        Seq::empty()
    } else {
        let rest = remap_entries(entries.drop_last(), x);
        let last = entries.last();
        if last.input.spec_refs(x) || last.output.spec_refs(x) {
            rest
        } else {
            rest.push(shifted_rule(last, x))
        }
    }
}

/// A partial mapping from input blocks to output blocks, with unique keys.
pub struct RuleTable {
    entries: Vec<Rule>,
}

impl View for RuleTable {
    type V = Seq<Rule>;

    closed spec fn view(&self) -> Seq<Rule> {
        self.entries@
    }
}

impl RuleTable {
    /// The table is a mapping: no input block is stored twice.
    pub open spec fn wf(self) -> bool {
        unique_keys(self@)
    }

    pub fn new() -> (t: RuleTable)
        ensures
            t@ == Seq::<Rule>::empty(),
            t.wf(),
    {
        let t = RuleTable { entries: Vec::new() };
        proof {
            assert(t@ =~= Seq::<Rule>::empty());
        }
        t
    }

    /// The stored entries, in storage order. Writes made with the mirror
    /// enabled keep one canonical entry per orbit.
    pub fn rules(&self) -> (r: &Vec<Rule>)
        ensures
            r@ == self@,
    {
        &self.entries
    }

    pub fn len(&self) -> (n: usize)
        ensures
            n == self@.len(),
    {
        self.entries.len()
    }

    fn find(&self, k: Block) -> (r: Option<usize>)
        ensures
            match r {
                Some(i) => i < self@.len() && self@[i as int].input == k,
                None => !has_key(self@, k),
            },
    {
        let n = self.entries.len();
        let mut i: usize = 0;
        while i < n
            invariant
                i <= n,
                n == self@.len(),
                forall|j: int| 0 <= j < i ==> (#[trigger] self@[j]).input != k,
            decreases n - i,
        {
            if self.entries[i].input == k {
                return Some(i);
            }
            i = i + 1;
        }
        None
    }

    /// Remove the entry whose input block is `k`, if any.
    fn remove_key(&mut self, k: Block)
        requires
            old(self).wf(),
        ensures
            final(self).wf(),
            !has_key(final(self)@, k),
            forall|q: Block| q != k ==> (has_key(final(self)@, q) <==> has_key(old(self)@, q)),
            forall|q: Block|
                q != k && has_key(old(self)@, q) ==> value_of(final(self)@, q) == value_of(
                    old(self)@,
                    q,
                ),
            orbit_unique(old(self)@) ==> orbit_unique(final(self)@),
            forall|n: nat| table_in_range(old(self)@, n) ==> table_in_range(final(self)@, n),
            !has_key(old(self)@, k) ==> final(self)@ == old(self)@,
    {
        match self.find(k) {
            Some(i) => {
                proof {
                    lemma_remove_entry(self@, i as int);
                }
                self.entries.remove(i);
            },
            None => {},
        }
    }

    /// Direct lookup of the stored entry for `input`, then, when the
    /// horizontal mirror is enabled, of the entry for `mirror(input)`
    /// with the output mirrored back.
    pub fn lookup(&self, input: Block, horizontal: bool) -> (r: Option<Block>)
        requires
            self.wf(),
        ensures
            r == table_lookup(self@, input, horizontal),
    {
        match self.find(input) {
            Some(i) => {
                proof {
                    lemma_value_at(self@, i as int, input);
                }
                Some(self.entries[i].output)
            },
            None => {
                if horizontal {
                    let m = input.mirror();
                    match self.find(m) {
                        Some(i) => {
                            proof {
                                lemma_value_at(self@, i as int, m);
                            }
                            Some(self.entries[i].output.mirror())
                        },
                        None => None,
                    }
                } else {
                    None
                }
            },
        }
    }

    /// Insert or overwrite the mapping for `input`.
    ///
    /// With the horizontal mirror enabled, the entry is stored in canonical
    /// orientation (the lexicographically smaller of `input` and its mirror,
    /// with the output oriented to match), any stored entry for either
    /// orientation is replaced, and afterwards both orbit members resolve.
    ///
    /// The result reports a symmetry conflict: the write happened under the
    /// mirror, `input` is not self-mirrored, and the orbit already resolved
    /// `input` to a different output. The new rule wins either way.
    pub fn set_rule(&mut self, input: Block, output: Block, horizontal: bool) -> (conflict: bool)
        requires
            old(self).wf(),
        ensures
            final(self).wf(),
            table_lookup(final(self)@, input, horizontal) == Some(output),
            horizontal && input.spec_mirror() != input ==> table_lookup(
                final(self)@,
                input.spec_mirror(),
                true,
            ) == Some(output.spec_mirror()),
            horizontal ==> forall|q: Block|
                q != input && q != input.spec_mirror() ==> table_lookup(final(self)@, q, true)
                    == table_lookup(old(self)@, q, true),
            !horizontal ==> forall|q: Block|
                q != input ==> table_lookup(final(self)@, q, false) == table_lookup(
                    old(self)@,
                    q,
                    false,
                ),
            conflict == (horizontal && input.spec_mirror() != input && match table_lookup(
                old(self)@,
                input,
                true,
            ) {
                Some(o) => o != output,
                None => false,
            }),
            orbit_unique(old(self)@) && (horizontal || input.spec_mirror() == input || !has_key(
                old(self)@,
                input.spec_mirror(),
            )) ==> orbit_unique(final(self)@),
            forall|n: nat|
                table_in_range(old(self)@, n) && input.spec_in_range(n) && output.spec_in_range(n)
                    ==> table_in_range(final(self)@, n),
    {
        if horizontal {
            let m = input.mirror();
            let conflict = if m != input {
                match self.lookup(input, true) {
                    Some(o) => o != output,
                    None => false,
                }
            } else {
                false
            };
            let k = input.canonical();
            let oriented = if k == input {
                output
            } else {
                output.mirror()
            };
            let ghost pre = self@;
            self.remove_key(input);
            if m != input {
                self.remove_key(m);
            }
            let ghost mid = self@;
            proof {
                lemma_push_entry(mid, Rule { input: k, output: oriented });
            }
            self.entries.push(Rule { input: k, output: oriented });
            proof {
                let fin = self@;
                assert(k == input || k == m);
                assert(k.spec_mirror() == m || k.spec_mirror() == input);
                assert(!has_key(mid, k.spec_mirror()));
                assert(table_lookup(fin, input, true) == Some(output));
                if m != input {
                    assert(table_lookup(fin, m, true) == Some(output.spec_mirror()));
                }
                assert forall|q: Block| q != input && q != m implies table_lookup(fin, q, true)
                    == table_lookup(pre, q, true) by {
                    assert(q.spec_mirror() != input && q.spec_mirror() != m) by {
                        if q.spec_mirror() == input {
                            assert(q == input.spec_mirror());
                        }
                        if q.spec_mirror() == m {
                            assert(q == m.spec_mirror());
                        }
                    }
                    assert(has_key(fin, q) <==> has_key(pre, q));
                    assert(has_key(fin, q.spec_mirror()) <==> has_key(pre, q.spec_mirror()));
                }
            }
            conflict
        } else {
            let ghost pre = self@;
            self.remove_key(input);
            let ghost mid = self@;
            proof {
                lemma_push_entry(mid, Rule { input, output });
            }
            self.entries.push(Rule { input, output });
            proof {
                let fin = self@;
                assert(table_lookup(fin, input, false) == Some(output));
                if orbit_unique(pre) && (input.spec_mirror() == input || !has_key(
                    pre,
                    input.spec_mirror(),
                )) {
                    assert(!has_key(mid, input.spec_mirror()));
                    assert(orbit_unique(fin));
                }
            }
            false
        }
    }

    /// Remove the stored mapping for `input` (with the mirror enabled, the
    /// one entry answering for its whole orbit); a no-op when absent.
    pub fn remove_rule(&mut self, input: Block, horizontal: bool)
        requires
            old(self).wf(),
        ensures
            final(self).wf(),
            table_lookup(final(self)@, input, horizontal) == None::<Block>,
            horizontal ==> table_lookup(final(self)@, input.spec_mirror(), true) == None::<Block>,
            horizontal ==> forall|q: Block|
                q != input && q != input.spec_mirror() ==> table_lookup(final(self)@, q, true)
                    == table_lookup(old(self)@, q, true),
            !horizontal ==> forall|q: Block|
                q != input ==> table_lookup(final(self)@, q, false) == table_lookup(
                    old(self)@,
                    q,
                    false,
                ),
            orbit_unique(old(self)@) ==> orbit_unique(final(self)@),
            forall|n: nat| table_in_range(old(self)@, n) ==> table_in_range(final(self)@, n),
    {
        let ghost pre = self@;
        self.remove_key(input);
        if horizontal {
            let m = input.mirror();
            if m != input {
                self.remove_key(m);
            }
            proof {
                let fin = self@;
                assert(!has_key(fin, input) && !has_key(fin, input.spec_mirror()));
                assert forall|q: Block| q != input && q != input.spec_mirror() implies table_lookup(
                    fin,
                    q,
                    true,
                ) == table_lookup(pre, q, true) by {
                    assert(q.spec_mirror() != input && q.spec_mirror() != input.spec_mirror()) by {
                        if q.spec_mirror() == input {
                            assert(q == input.spec_mirror());
                        }
                        if q.spec_mirror() == input.spec_mirror() {
                            assert(q == input);
                        }
                    }
                    assert(has_key(fin, q) <==> has_key(pre, q));
                    assert(has_key(fin, q.spec_mirror()) <==> has_key(pre, q.spec_mirror()));
                }
            }
        }
    }

    /// Drop every entry whose input or output references an index at or
    /// beyond `n` (the shrink-cascade policy: offending rules are dropped,
    /// surviving rules are untouched).
    pub fn drop_out_of_range(&mut self, n: usize)
        requires
            old(self).wf(),
        ensures
            final(self).wf(),
            table_in_range(final(self)@, n as nat),
            forall|q: Block|
                has_key(final(self)@, q) <==> (has_key(old(self)@, q) && q.spec_in_range(n as nat)
                    && value_of(old(self)@, q).spec_in_range(n as nat)),
            forall|q: Block|
                has_key(final(self)@, q) ==> value_of(final(self)@, q) == value_of(old(self)@, q),
            orbit_unique(old(self)@) ==> orbit_unique(final(self)@),
            table_in_range(old(self)@, n as nat) ==> final(self)@ == old(self)@,
    {
        let ghost pre = self@;
        let mut kept: Vec<Rule> = Vec::new();
        let len = self.entries.len();
        let mut i: usize = 0;
        proof {
            assert(kept@ =~= Seq::<Rule>::empty());
        }
        while i < len
            invariant
                i <= len,
                len == pre.len(),
                pre == self@,
                self.wf(),
                unique_keys(kept@),
                table_in_range(kept@, n as nat),
                forall|q: Block| has_key(kept@, q) <==> surviving_key(pre, i as int, n as nat, q),
                forall|q: Block| has_key(kept@, q) ==> value_of(kept@, q) == value_of(pre, q),
                orbit_unique(pre) ==> orbit_unique(kept@),
                table_in_range(pre, n as nat) ==> kept@ == pre.subrange(0, i as int),
            decreases len - i,
        {
            let rule = self.entries[i];
            let ghost kpre = kept@;
            if rule.input.in_range(n) && rule.output.in_range(n) {
                proof {
                    assert(!has_key(kpre, rule.input)) by {
                        if has_key(kpre, rule.input) {
                            let j = choose|j: int|
                                0 <= j < i && (#[trigger] pre[j]).input == rule.input
                                    && pre[j].input.spec_in_range(n as nat)
                                    && pre[j].output.spec_in_range(n as nat);
                            assert(pre[j].input == pre[i as int].input && j != i);
                        }
                    }
                    lemma_push_entry(kpre, rule);
                    lemma_value_at(pre, i as int, rule.input);
                    if orbit_unique(pre) {
                        assert(!has_key(kpre, rule.input.spec_mirror())) by {
                            if has_key(kpre, rule.input.spec_mirror()) {
                                let j = choose|j: int|
                                    0 <= j < i && (#[trigger] pre[j]).input
                                        == rule.input.spec_mirror() && pre[j].input.spec_in_range(
                                        n as nat,
                                    ) && pre[j].output.spec_in_range(n as nat);
                                assert(pre[j].input == pre[i as int].input.spec_mirror() && j != i);
                            }
                        }
                    }
                }
                kept.push(rule);
                proof {
                    assert forall|q: Block| has_key(kept@, q) implies surviving_key(
                        pre,
                        i as int + 1,
                        n as nat,
                        q,
                    ) by {
                        if q == rule.input {
                            assert(0 <= i < i + 1 && pre[i as int].input == q
                                && pre[i as int].input.spec_in_range(n as nat)
                                && pre[i as int].output.spec_in_range(n as nat));
                        } else {
                            assert(has_key(kpre, q));
                            let j = choose|j: int|
                                0 <= j < i && (#[trigger] pre[j]).input == q
                                    && pre[j].input.spec_in_range(n as nat)
                                    && pre[j].output.spec_in_range(n as nat);
                            assert(0 <= j < i + 1 && pre[j].input == q);
                        }
                    }
                    assert forall|q: Block| surviving_key(pre, i as int + 1, n as nat, q) implies
                        has_key(kept@, q) by {
                        let j = choose|j: int|
                            0 <= j < i as int + 1 && (#[trigger] pre[j]).input == q
                                && pre[j].input.spec_in_range(n as nat)
                                && pre[j].output.spec_in_range(n as nat);
                        if j == i as int {
                            assert(kept@[kpre.len() as int].input == q);
                        } else {
                            assert(surviving_key(pre, i as int, n as nat, q));
                            assert(has_key(kpre, q));
                            let jj = key_at(kpre, q);
                            assert(0 <= jj < kpre.len() && kpre[jj].input == q);
                            assert(kept@[jj].input == q);
                        }
                    }
                    if table_in_range(pre, n as nat) {
                        assert(kept@ =~= pre.subrange(0, i as int + 1));
                    }
                }
            } else {
                proof {
                    assert forall|q: Block| surviving_key(pre, i as int + 1, n as nat, q) implies
                        surviving_key(pre, i as int, n as nat, q) by {
                        let j = choose|j: int|
                            0 <= j < i + 1 && (#[trigger] pre[j]).input == q
                                && pre[j].input.spec_in_range(n as nat)
                                && pre[j].output.spec_in_range(n as nat);
                        assert(j != i);
                        assert(0 <= j < i && pre[j].input == q);
                    }
                    assert forall|q: Block| surviving_key(pre, i as int, n as nat, q) implies
                        surviving_key(pre, i as int + 1, n as nat, q) by {
                        let j = choose|j: int|
                            0 <= j < i && (#[trigger] pre[j]).input == q
                                && pre[j].input.spec_in_range(n as nat)
                                && pre[j].output.spec_in_range(n as nat);
                        assert(0 <= j < i + 1 && pre[j].input == q);
                    }
                    if table_in_range(pre, n as nat) {
                        assert(pre[i as int].input.spec_in_range(n as nat)
                            && pre[i as int].output.spec_in_range(n as nat));
                    }
                }
            }
            i = i + 1;
        }
        self.entries = kept;
        proof {
            let fin = self@;
            assert forall|q: Block|
                has_key(pre, q) && q.spec_in_range(n as nat) && value_of(pre, q).spec_in_range(
                    n as nat,
                ) implies has_key(fin, q) by {
                let j = key_at(pre, q);
                lemma_value_at(pre, j, q);
                assert(0 <= j < len && pre[j].input == q && pre[j].input.spec_in_range(n as nat)
                    && pre[j].output.spec_in_range(n as nat));
            }
            assert forall|q: Block| has_key(fin, q) implies has_key(pre, q) && q.spec_in_range(
                n as nat,
            ) && value_of(pre, q).spec_in_range(n as nat) by {
                let j = choose|j: int|
                    0 <= j < len && (#[trigger] pre[j]).input == q && pre[j].input.spec_in_range(
                        n as nat,
                    ) && pre[j].output.spec_in_range(n as nat);
                lemma_value_at(pre, j, q);
            }
            if table_in_range(pre, n as nat) {
                assert(fin =~= pre.subrange(0, len as int));
                assert(pre.subrange(0, len as int) =~= pre);
            }
        }
    }

    /// Build a table from raw entries, refusing duplicate input blocks.
    pub fn from_entries(entries: Vec<Rule>) -> (r: Option<RuleTable>)
        ensures
            r is Some <==> unique_keys(entries@),
            r matches Some(t) ==> t@ == entries@ && t.wf(),
    {
        let len = entries.len();
        let mut i: usize = 0;
        while i < len
            invariant
                i <= len,
                len == entries@.len(),
                forall|p: int, q: int|
                    #![trigger entries@[p], entries@[q]]
                    0 <= p < i && p < q < len ==> entries@[p].input != entries@[q].input,
            decreases len - i,
        {
            let mut j: usize = i + 1;
            while j < len
                invariant
                    i < j <= len,
                    i < len,
                    len == entries@.len(),
                    forall|q: int|
                        i < q < j ==> entries@[i as int].input != (#[trigger] entries@[q]).input,
                decreases len - j,
            {
                if entries[i].input == entries[j].input {
                    return None;
                }
                j = j + 1;
            }
            i = i + 1;
        }
        proof {
            assert forall|p: int, q: int|
                0 <= p < entries@.len() && 0 <= q < entries@.len() && p != q implies #[trigger] entries@[p].input
                != #[trigger] entries@[q].input by {
                if p < q {
                } else {
                    assert(entries@[q].input != entries@[p].input);
                }
            }
        }
        Some(RuleTable { entries })
    }

    /// Cascade a palette removal at `x` through the table: drop every rule
    /// mentioning `x`, shift every other stored index down past `x`.
    pub fn remap_removed(&mut self, x: usize)
        requires
            old(self).wf(),
        ensures
            final(self).wf(),
            final(self)@ == remap_entries(old(self)@, x as nat),
            orbit_unique(old(self)@) ==> orbit_unique(final(self)@),
            forall|n: nat|
                n > x && table_in_range(old(self)@, n) ==> table_in_range(
                    final(self)@,
                    (n - 1) as nat,
                ),
    {
        let ghost pre = self@;
        let mut kept: Vec<Rule> = Vec::new();
        let len = self.entries.len();
        let mut i: usize = 0;
        proof {
            assert(kept@ =~= Seq::<Rule>::empty());
            assert(pre.subrange(0, 0) =~= Seq::<Rule>::empty());
        }
        while i < len
            invariant
                i <= len,
                len == pre.len(),
                pre == self@,
                self.wf(),
                unique_keys(kept@),
                orbit_unique(pre) ==> orbit_unique(kept@),
                kept@ == remap_entries(pre.subrange(0, i as int), x as nat),
                forall|jj: int|
                    #![trigger kept@[jj]]
                    0 <= jj < kept@.len() ==> exists|j: int|
                        0 <= j < i && !(#[trigger] pre[j]).input.spec_refs(x as nat)
                            && !pre[j].output.spec_refs(x as nat) && kept@[jj] == shifted_rule(
                            pre[j],
                            x as nat,
                        ),
                forall|n: nat|
                    n > x && table_in_range(pre, n) ==> table_in_range(kept@, (n - 1) as nat),
            decreases len - i,
        {
            let rule = self.entries[i];
            let ghost kpre = kept@;
            proof {
                assert(pre.subrange(0, i as int + 1).drop_last() =~= pre.subrange(0, i as int));
                assert(pre.subrange(0, i as int + 1).last() == pre[i as int]);
            }
            if !rule.input.refs(x) && !rule.output.refs(x) {
                let shifted = Rule {
                    input: rule.input.shift_removed(x),
                    output: rule.output.shift_removed(x),
                };
                proof {
                    assert(!has_key(kpre, shifted.input)) by {
                        if has_key(kpre, shifted.input) {
                            let jj = key_at(kpre, shifted.input);
                            assert(0 <= jj < kpre.len() && kpre[jj].input == shifted.input);
                            let j = choose|j: int|
                                0 <= j < i && !(#[trigger] pre[j]).input.spec_refs(x as nat)
                                    && !pre[j].output.spec_refs(x as nat) && kpre[jj]
                                    == shifted_rule(pre[j], x as nat);
                            lemma_shift_removed_injective(
                                pre[j].input,
                                pre[i as int].input,
                                x as nat,
                            );
                            assert(pre[j].input == pre[i as int].input && j != i);
                        }
                    }
                    if orbit_unique(pre) {
                        assert(shifted.input.spec_mirror() == pre[i as int].input.spec_mirror().spec_shift_removed(x as nat));
                        assert(!has_key(kpre, shifted.input.spec_mirror())) by {
                            if has_key(kpre, shifted.input.spec_mirror()) {
                                let jj = key_at(kpre, shifted.input.spec_mirror());
                                assert(0 <= jj < kpre.len() && kpre[jj].input
                                    == shifted.input.spec_mirror());
                                let j = choose|j: int|
                                    0 <= j < i && !(#[trigger] pre[j]).input.spec_refs(x as nat)
                                        && !pre[j].output.spec_refs(x as nat) && kpre[jj]
                                        == shifted_rule(pre[j], x as nat);
                                lemma_shift_removed_injective(
                                    pre[j].input,
                                    pre[i as int].input.spec_mirror(),
                                    x as nat,
                                );
                                assert(pre[j].input == pre[i as int].input.spec_mirror());
                                assert(j != i);
                            }
                        }
                    }
                    lemma_push_entry(kpre, shifted);
                }
                kept.push(shifted);
                proof {
                    assert(kept@ == remap_entries(pre.subrange(0, i as int + 1), x as nat));
                    assert forall|jj: int| #![trigger kept@[jj]] 0 <= jj < kept@.len() implies exists|j: int|
                        0 <= j < i + 1 && !(#[trigger] pre[j]).input.spec_refs(x as nat)
                            && !pre[j].output.spec_refs(x as nat) && kept@[jj] == shifted_rule(
                            pre[j],
                            x as nat,
                        ) by {
                        if jj < kpre.len() {
                            let j = choose|j: int|
                                0 <= j < i && !(#[trigger] pre[j]).input.spec_refs(x as nat)
                                    && !pre[j].output.spec_refs(x as nat) && kpre[jj]
                                    == shifted_rule(pre[j], x as nat);
                            assert(0 <= j < i + 1 && kept@[jj] == shifted_rule(pre[j], x as nat));
                        } else {
                            assert(kept@[jj] == shifted_rule(pre[i as int], x as nat));
                        }
                    }
                    assert forall|n: nat| n > x && table_in_range(pre, n) implies table_in_range(
                        kept@,
                        (n - 1) as nat,
                    ) by {
                        assert(pre[i as int].input.spec_in_range(n)
                            && pre[i as int].output.spec_in_range(n));
                        lemma_shift_removed_in_range(pre[i as int].input, x as nat, n);
                        lemma_shift_removed_in_range(pre[i as int].output, x as nat, n);
                        assert(forall|k: int|
                            0 <= k < kpre.len() ==> (#[trigger] kpre[k]).input.spec_in_range(
                                (n - 1) as nat,
                            ) && kpre[k].output.spec_in_range((n - 1) as nat));
                        assert(forall|k: int|
                            0 <= k < kept@.len() ==> (#[trigger] kept@[k]).input.spec_in_range(
                                (n - 1) as nat,
                            ) && kept@[k].output.spec_in_range((n - 1) as nat));
                    }
                }
            }
            i = i + 1;
        }
        self.entries = kept;
        proof {
            assert(pre.subrange(0, len as int) =~= pre);
        }
    }
}

} // verus!
