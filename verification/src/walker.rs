//! Walking the entries of a page table in depth-first order.
use vstd::prelude::*;
use crate::layout::{Frame, entry_vaddr, table_span};
use crate::table::{PageTable, PageTableView, Pte, MapConfig, page_end};
use vstd::arithmetic::power2::lemma_pow2_pos;

verus! {

/// The most tables a walk goes down through at once.
pub const MAX_WALK_DEPTH: usize = 8;

/// One table on the way down: its address, its level, the next entry to
/// read and the address that the table stands for.
pub type WalkState = (usize, usize, usize, usize);

/// `heapless::Vec`, the fixed-capacity vector that holds the walk stack.
#[verifier::external_type_specification]
#[verifier::external_body]
#[verifier::reject_recursive_types(T)]
pub struct ExHeaplessVec<T, const N: usize>(heapless::Vec<T, N>);

/// What a `heapless::Vec` of walk states holds, from the first item pushed
/// (the bottom of the stack) to the last.
pub uninterp spec fn stack_items(v: heapless::Vec<(usize, usize, usize, usize), 8>) -> Seq<(usize, usize, usize, usize)>;

/// `heapless::Vec::new`: claimed to hold no item.
#[verifier::external_body]
fn stack_new() -> (v: heapless::Vec<WalkState, MAX_WALK_DEPTH>)
    ensures
        stack_items(v) == Seq::<WalkState>::empty(),
{
    heapless::Vec::new()
}

/// `heapless::Vec::push`: claimed to append the item when fewer than the
/// capacity of eight items are held (reporting success), and to leave the
/// vector as it was otherwise (reporting failure).
#[verifier::external_body]
fn stack_push(v: &mut heapless::Vec<WalkState, MAX_WALK_DEPTH>, item: WalkState) -> (pushed: bool)
    ensures
        pushed == (stack_items(*old(v)).len() < MAX_WALK_DEPTH),
        pushed ==> stack_items(*final(v)) == stack_items(*old(v)).push(item),
        !pushed ==> stack_items(*final(v)) == stack_items(*old(v)),
{
    v.push(item).is_ok()
}

/// `heapless::Vec::pop`: claimed to remove and return the last item, and to
/// return `None` and change nothing when the vector is empty.
#[verifier::external_body]
fn stack_pop(v: &mut heapless::Vec<WalkState, MAX_WALK_DEPTH>) -> (item: Option<WalkState>)
    ensures
        stack_items(*old(v)).len() == 0 ==> item is None && stack_items(*final(v)) == stack_items(*old(v)),
        stack_items(*old(v)).len() > 0 ==> item == Some(stack_items(*old(v)).last())
            && stack_items(*final(v)) == stack_items(*old(v)).drop_last(),
{
    v.pop()
}

/// `last` of the slice that `heapless::Vec` dereferences to, copied out:
/// claimed to be the last item pushed and not popped, or `None` when empty.
#[verifier::external_body]
fn stack_last(v: &heapless::Vec<WalkState, MAX_WALK_DEPTH>) -> (item: Option<WalkState>)
    ensures
        stack_items(*v).len() == 0 ==> item is None,
        stack_items(*v).len() > 0 ==> item == Some(stack_items(*v).last()),
{
    v.last().copied()
}

/// `heapless::Vec::is_empty`: claimed to tell whether no item is held.
#[verifier::external_body]
fn stack_is_empty(v: &heapless::Vec<WalkState, MAX_WALK_DEPTH>) -> (empty: bool)
    ensures
        empty == (stack_items(*v).len() == 0),
{
    v.is_empty()
}

/// An entry that a walk hands out: the level of its table, the address it
/// stands for, and the entry itself.
#[derive(Clone, Copy, Debug, PartialEq, Eq)]
pub struct PteInfo {
    pub level: usize,
    pub vaddr: usize,
    pub pte: Pte,
}

/// Which entries a walk hands out: those whose addresses lie in
/// `[start_vaddr, end_vaddr)`, invalid ones only when `visit_invalid` is set.
#[derive(Clone, Copy, Debug, PartialEq, Eq)]
pub struct WalkConfig {
    pub start_vaddr: usize,
    pub end_vaddr: usize,
    pub visit_invalid: bool,
}

/// The work that is left for one entry at `level` of a table with `t`
/// entries per table: reading it, and, for an entry that points further
/// down, the whole table below it.
pub open spec fn entry_cost(t: nat, level: nat) -> nat
    decreases level,
{
    if level <= 1 {
        1
    } else {
        t * entry_cost(t, (level - 1) as nat) + 2
    }
}

/// The work that is left for one table on the stack.
pub open spec fn state_cost(t: nat, s: WalkState) -> nat {
    ((t - s.2) * entry_cost(t, s.1 as nat) + 1) as nat
}

/// The work that is left for a whole stack.
pub open spec fn stack_cost(t: nat, s: Seq<WalkState>) -> nat
    decreases s.len(),
{
    if s.len() == 0 {
        0
    } else {
        stack_cost(t, s.drop_last()) + state_cost(t, s.last())
    }
}

/// Every table on the stack is at level 1 or above and its next entry is at
/// most one past the last.
pub open spec fn stack_bounded(t: nat, s: Seq<WalkState>) -> bool {
    forall|k: int| 0 <= k < s.len() ==> (#[trigger] s[k]).2 <= t && s[k].1 >= 1
}

/// An entry at `level` whose address `v` lies below the start of the range
/// is still gone into when it points to a table one level down whose span
/// reaches the start.
pub open spec fn reaches_start(table: PageTableView, config: WalkConfig, pte: Pte, level: usize, v: int) -> bool {
    &&& pte.valid
    &&& !pte.is_huge
    &&& level > 1
    &&& config.start_vaddr - v < table.layout.level_size(level as nat)
}

/// What a walk over `table` with `config` hands out next from the state
/// `stack` / `finished`, and the state after: the entry that the top table
/// reads next is taken and the top table moves one entry on; a table whose
/// entries are all read is dropped; an entry below the start is skipped
/// unless it points to a table whose span reaches the start; the first entry
/// at or past the end ends the walk; an invalid entry is skipped unless
/// invalid entries are asked for; a valid entry that points to a table one
/// level down pushes that table (if the stack has room) and is not handed
/// out; every other entry is handed out. An empty stack ends the walk.
pub open spec fn walk_next(table: PageTableView, config: WalkConfig, stack: Seq<WalkState>, finished: bool)
    -> (Option<PteInfo>, Seq<WalkState>, bool)
    decreases stack_cost(table.layout.table_len as nat, stack)
        when stack_bounded(table.layout.table_len as nat, stack)
{
    let t = table.layout.table_len as nat;
    if finished || stack.len() == 0 {
        (None, stack, true)
    } else {
        let top = stack.last();
        let (paddr, level, index, base) = top;
        if index >= t {
            proof {
                lemma_stack_cost_unfold(t, stack);
                assert(stack_bounded(t, stack.drop_last()));
                assert((t - index) * entry_cost(t, level as nat) == 0) by (nonlinear_arith)
                    requires index == t;
            }
            walk_next(table, config, stack.drop_last(), false)
        } else {
            let pte = table.frames[table.frame_at(paddr)].entries[index as int];
            let s1 = stack.drop_last().push((paddr, level, (index + 1) as usize, base));
            let v = entry_vaddr(table.layout, index, level as nat, base);
            proof {
                lemma_walk_step_facts(t, stack, pte.paddr, v as usize);
            }
            if v < config.start_vaddr && !reaches_start(table, config, pte, level, v) {
                walk_next(table, config, s1, false)
            } else if v >= config.end_vaddr {
                (None, s1, true)
            } else if !pte.valid && !config.visit_invalid {
                walk_next(table, config, s1, false)
            } else if pte.valid && !pte.is_huge && level > 1 {
                let child = (pte.paddr, (level - 1) as usize, 0usize, v as usize);
                let s2 = if s1.len() < MAX_WALK_DEPTH { s1.push(child) } else { s1 };
                walk_next(table, config, s2, false)
            } else {
                (Some(PteInfo { level, vaddr: v as usize, pte }), s1, false)
            }
        }
    }
}

/// The facts about one step of a walk from a bounded, non-empty stack whose
/// top table has an entry left: the top moves one entry on and costs less,
/// and a table pushed below it costs less than the entry it comes from.
pub proof fn lemma_walk_step_facts(t: nat, stack: Seq<WalkState>, child_paddr: usize, child_base: usize)
    requires
        stack_bounded(t, stack),
        stack.len() > 0,
        stack.last().2 < t,
        t <= usize::MAX,
    ensures
        ({
            let (paddr, level, index, base) = stack.last();
            let s1 = stack.drop_last().push((paddr, level, (index + 1) as usize, base));
            let child = (child_paddr, (level - 1) as usize, 0usize, child_base);
            &&& stack_bounded(t, s1)
            &&& stack_cost(t, s1) < stack_cost(t, stack)
            &&& level > 1 ==> stack_bounded(t, s1.push(child))
            &&& level > 1 ==> stack_cost(t, s1.push(child)) < stack_cost(t, stack)
        }),
{
    let (paddr, level, index, base) = stack.last();
    let s1 = stack.drop_last().push((paddr, level, (index + 1) as usize, base));
    let child = (child_paddr, (level - 1) as usize, 0usize, child_base);
    lemma_stack_cost_unfold(t, stack);
    lemma_entry_cost_positive(t, level as nat);
    lemma_stack_cost_push(t, stack.drop_last(), (paddr, level, (index + 1) as usize, base));
    let e = entry_cost(t, level as nat);
    assert((t - index) * e == (t - (index + 1)) * e + e) by (nonlinear_arith);
    assert(stack.last() == stack[stack.len() - 1]);
    assert forall|k: int| 0 <= k < s1.len() implies (#[trigger] s1[k]).2 <= t && s1[k].1 >= 1 by {
        if k < s1.len() - 1 {
            assert(s1[k] == stack[k]);
        }
    }
    assert(stack_cost(t, s1) + e == stack_cost(t, stack));
    if level > 1 {
        let s2 = s1.push(child);
        lemma_stack_cost_push(t, s1, child);
        let e1 = entry_cost(t, (level - 1) as nat);
        assert((t - 0) * e1 == t * e1);
        assert(state_cost(t, child) == t * e1 + 1);
        assert(e == t * e1 + 2);
        assert(stack_cost(t, s2) == stack_cost(t, s1) + t * e1 + 1);
        assert forall|k: int| 0 <= k < s2.len() implies (#[trigger] s2[k]).2 <= t && s2[k].1 >= 1 by {
            if k < s1.len() {
                assert(s2[k] == s1[k]);
            }
        }
    }
}

/// A step of a walk keeps the stack bounded, and a step that hands out an
/// entry leaves a cheaper stack and a walk that goes on.
pub proof fn lemma_walk_next_cost(table: PageTableView, config: WalkConfig, stack: Seq<WalkState>, finished: bool)
    requires
        stack_bounded(table.layout.table_len as nat, stack),
    ensures
        stack_bounded(table.layout.table_len as nat, walk_next(table, config, stack, finished).1),
        walk_next(table, config, stack, finished).0 is Some ==> {
            &&& stack_cost(table.layout.table_len as nat, walk_next(table, config, stack, finished).1)
                < stack_cost(table.layout.table_len as nat, stack)
            &&& !walk_next(table, config, stack, finished).2
        },
    decreases stack_cost(table.layout.table_len as nat, stack),
{
    let t = table.layout.table_len as nat;
    if finished || stack.len() == 0 {
    } else {
        let (paddr, level, index, base) = stack.last();
        lemma_stack_cost_unfold(t, stack);
        lemma_entry_cost_positive(t, level as nat);
        if index >= t {
            assert(stack_bounded(t, stack.drop_last()));
            assert((t - index) * entry_cost(t, level as nat) == 0) by (nonlinear_arith)
                requires index == t;
            lemma_walk_next_cost(table, config, stack.drop_last(), false);
        } else {
            let pte = table.frames[table.frame_at(paddr)].entries[index as int];
            let s1 = stack.drop_last().push((paddr, level, (index + 1) as usize, base));
            let v = entry_vaddr(table.layout, index, level as nat, base);
            lemma_walk_step_facts(t, stack, pte.paddr, v as usize);
            if v < config.start_vaddr && !reaches_start(table, config, pte, level, v) {
                lemma_walk_next_cost(table, config, s1, false);
            } else if v >= config.end_vaddr {
            } else if !pte.valid && !config.visit_invalid {
                lemma_walk_next_cost(table, config, s1, false);
            } else if pte.valid && !pte.is_huge && level > 1 {
                let child = (pte.paddr, (level - 1) as usize, 0usize, v as usize);
                let s2 = if s1.len() < MAX_WALK_DEPTH { s1.push(child) } else { s1 };
                lemma_walk_next_cost(table, config, s2, false);
            } else {
            }
        }
    }
}

/// The entries that a walk hands out from the state `stack` / `finished`
/// on, in order, until it ends.
pub open spec fn walk_outputs(table: PageTableView, config: WalkConfig, stack: Seq<WalkState>, finished: bool) -> Seq<PteInfo>
    decreases stack_cost(table.layout.table_len as nat, stack)
        when stack_bounded(table.layout.table_len as nat, stack)
{
    let (r, s1, f1) = walk_next(table, config, stack, finished);
    proof {
        lemma_walk_next_cost(table, config, stack, finished);
    }
    match r {
        None => Seq::empty(),
        Some(info) => seq![info] + walk_outputs(table, config, s1, f1),
    }
}

/// Reading an entry costs at least one step.
pub proof fn lemma_entry_cost_positive(t: nat, level: nat)
    ensures
        entry_cost(t, level) >= 1,
        level > 1 ==> entry_cost(t, level) == t * entry_cost(t, (level - 1) as nat) + 2,
{
}

/// The cost of a stack is that of its lower part and of its top.
pub proof fn lemma_stack_cost_unfold(t: nat, s: Seq<WalkState>)
    requires
        s.len() > 0,
    ensures
        stack_cost(t, s) == stack_cost(t, s.drop_last()) + state_cost(t, s.last()),
        s.last() == s[s.len() - 1],
{
}

/// Pushing adds the cost of the new top.
pub proof fn lemma_stack_cost_push(t: nat, s: Seq<WalkState>, x: WalkState)
    ensures
        stack_cost(t, s.push(x)) == stack_cost(t, s) + state_cost(t, x),
{
    assert(s.push(x).drop_last() =~= s);
}

/// One table on the stack is a table of `table` at its level, its next
/// entry is at most one past the last, and the addresses it stands for end
/// no later than those of the root table.
pub open spec fn state_wf(table: PageTableView, s: WalkState) -> bool {
    &&& 1 <= s.1 <= table.layout.level
    &&& table.is_table_of(s.0, s.1 as nat)
    &&& s.2 <= table.layout.table_len
    &&& s.3 + table_span(table.layout, s.1 as nat) <= table_span(table.layout, table.layout.level as nat)
}

/// An entry that a walk over `table` with `config` may hand out: one of a
/// table at its level, inside the range, and either invalid (when invalid
/// entries are asked for) or the last entry of a walk (a block or a level-1
/// entry).
pub open spec fn info_ok(table: PageTableView, config: WalkConfig, info: PteInfo) -> bool {
    &&& 1 <= info.level <= table.layout.level
    &&& config.start_vaddr <= info.vaddr < config.end_vaddr
    &&& exists|f: int, j: int|
        0 <= f < table.frames.len() && 0 <= j < table.frames[f].entries.len()
            && table.frames[f].level == info.level
            && #[trigger] table.frames[f].entries[j] == info.pte
    &&& info.pte.valid ==> (info.pte.is_huge || info.level == 1)
    &&& !info.pte.valid ==> config.visit_invalid
}

/// A walk that asks for valid entries only hands out nothing from a table
/// that holds no valid entry.
pub proof fn lemma_empty_table_walks_nothing(table: PageTableView, config: WalkConfig, info: PteInfo)
    requires
        !config.visit_invalid,
        forall|f: int, j: int| 0 <= f < table.frames.len() && 0 <= j < table.frames[f].entries.len()
            ==> !(#[trigger] table.frames[f].entries[j]).valid,
    ensures
        !info_ok(table, config, info),
{
    if info_ok(table, config, info) {
        let (f, j) = choose|f: int, j: int|
            0 <= f < table.frames.len() && 0 <= j < table.frames[f].entries.len()
                && table.frames[f].level == info.level
                && #[trigger] table.frames[f].entries[j] == info.pte;
        assert(!table.frames[f].entries[j].valid);
    }
}

/// A depth-first walk over the entries of a page table.
pub struct PageTableWalker<'a> {
    page_table: &'a PageTable,
    config: WalkConfig,
    stack: heapless::Vec<WalkState, MAX_WALK_DEPTH>,
    current_vaddr: usize,
    finished: bool,
}

impl<'a> PageTableWalker<'a> {
    /// The table that is walked.
    pub closed spec fn table(self) -> PageTableView {
        self.page_table@
    }

    /// What the walk hands out.
    pub closed spec fn config(self) -> WalkConfig {
        self.config
    }

    /// The tables on the way down, from the root up to the one read now.
    pub closed spec fn stack(self) -> Seq<WalkState> {
        stack_items(self.stack)
    }

    /// The walk has ended and hands out nothing more.
    pub closed spec fn is_finished(self) -> bool {
        self.finished
    }

    /// The state of the walk is consistent with its table.
    pub closed spec fn inv(self) -> bool {
        &&& self.page_table@.wf()
        &&& stack_items(self.stack).len() <= MAX_WALK_DEPTH
        &&& forall|k: int| 0 <= k < stack_items(self.stack).len()
            ==> #[trigger] state_wf(self.page_table@, stack_items(self.stack)[k])
    }

    /// The tables on the stack of a consistent walk are bounded.
    proof fn lemma_stack_bounded(&self)
        requires
            self.inv(),
        ensures
            stack_bounded(self.page_table@.layout.table_len as nat, stack_items(self.stack)),
    {
        let s = stack_items(self.stack);
        assert forall|k: int| 0 <= k < s.len() implies (#[trigger] s[k]).2 <= self.page_table@.layout.table_len && s[k].1 >= 1 by {
            assert(state_wf(self.page_table@, s[k]));
        }
    }

    /// Starts a walk over `page_table` from the root table, or an ended walk
    /// when the range is empty.
    pub fn new(page_table: &'a PageTable, config: WalkConfig) -> (w: Self)
        requires
            page_table@.wf(),
        ensures
            w.inv(),
            w.table() == page_table@,
            w.config() == config,
            w.is_finished() == (config.start_vaddr >= config.end_vaddr),
            config.start_vaddr < config.end_vaddr ==> w.stack()
                == seq![(page_table.root_paddr(), page_table@.layout.level, 0usize, 0usize)],
            config.start_vaddr >= config.end_vaddr ==> w.stack() == Seq::<WalkState>::empty(),
    {
        let mut walker = PageTableWalker {
            page_table,
            config,
            stack: stack_new(),
            current_vaddr: config.start_vaddr,
            finished: false,
        };
        if !(walker.config.start_vaddr >= walker.config.end_vaddr) {
            let layout = page_table.layout();
            let root_state: WalkState = (page_table.root_paddr_exec(), layout.level, 0, 0);
            proof {
                crate::table::lemma_page_size_positive(layout);
                crate::layout::lemma_entry_span(layout, layout.level as nat);
                page_table.lemma_root_is_table();
            }
            let _ = stack_push(&mut walker.stack, root_state);
        } else {
            walker.finished = true;
        }
        walker
    }

    /// Hands out the next entry of the walk, or `None` when the walk has
    /// ended. Tables are read entry by entry, depth first: an entry whose
    /// address lies below the start is skipped, the first one at or past the
    /// end ends the walk, an invalid entry is skipped unless invalid entries
    /// are asked for, and a valid entry that points to a table one level down
    /// is gone into (unless the stack is full) instead of being handed out.
    fn find_next_entry(&mut self) -> (r: Option<PteInfo>)
        requires
            old(self).inv(),
        ensures
            final(self).inv(),
            final(self).table() == old(self).table(),
            final(self).config() == old(self).config(),
            old(self).is_finished() ==> r is None && final(self).is_finished(),
            r is None ==> final(self).is_finished(),
            r matches Some(info) ==> info_ok(final(self).table(), final(self).config(), info),
            (r, final(self).stack(), final(self).is_finished())
                == walk_next(old(self).table(), old(self).config(), old(self).stack(), old(self).is_finished()),
    {
        let layout = self.page_table.layout();
        let t = layout.table_len;
        let ghost tv = self.page_table@;
        loop
            invariant
                self.inv(),
                self.page_table@ == tv,
                tv == old(self).page_table@,
                self.config == old(self).config,
                old(self).finished ==> self.finished,
                layout == tv.layout,
                t == layout.table_len,
                walk_next(tv, self.config, stack_items(self.stack), self.finished)
                    == walk_next(tv, old(self).config, stack_items(old(self).stack), old(self).finished),
            decreases stack_cost(t as nat, stack_items(self.stack)),
        {
            proof {
                self.lemma_stack_bounded();
            }
            if self.finished {
                return None;
            }
            if stack_is_empty(&self.stack) {
                self.finished = true;
                return None;
            }
            let ghost s0 = stack_items(self.stack);
            let state = stack_last(&self.stack).unwrap();
            let (paddr, level, index, base) = state;
            proof {
                assert(state_wf(tv, s0[s0.len() - 1]));
                lemma_stack_cost_unfold(t as nat, s0);
                lemma_entry_cost_positive(t as nat, level as nat);
            }
            if index >= t {
                let _ = stack_pop(&mut self.stack);
                proof {
                    assert((t - index) * entry_cost(t as nat, level as nat) == 0) by (nonlinear_arith)
                        requires index == t;
                    assert(stack_items(self.stack) =~= s0.drop_last());
                }
                continue;
            }
            let pte = self.page_table.entry_at(Frame { paddr }, Ghost(level as nat), index);
            let _ = stack_pop(&mut self.stack);
            let next_state: WalkState = (paddr, level, index + 1, base);
            let _ = stack_push(&mut self.stack, next_state);
            let ghost s1 = stack_items(self.stack);
            proof {
                assert(s1 == s0.drop_last().push(next_state));
                lemma_walk_step_facts(t as nat, s0, pte.paddr, entry_vaddr(layout, index, level as nat, base) as usize);
                assert forall|k: int| 0 <= k < s1.len() implies #[trigger] state_wf(tv, s1[k]) by {
                    if k < s1.len() - 1 {
                        assert(s1[k] == s0[k]);
                    }
                }
                lemma_entry_vaddr_facts(tv, state);
            }
            let current_vaddr = Frame::reconstruct_vaddr(&layout, index, level, base);
            if current_vaddr < self.config.start_vaddr {
                let reaches = pte.valid && !pte.is_huge && level > 1
                    && self.config.start_vaddr - current_vaddr < Frame::level_size(&layout, level);
                if !reaches {
                    continue;
                }
            }
            if current_vaddr >= self.config.end_vaddr {
                self.finished = true;
                return None;
            }
            if !pte.valid && !self.config.visit_invalid {
                continue;
            }
            if pte.valid && !pte.is_huge && level > 1 {
                let child: WalkState = (pte.paddr, level - 1, 0, current_vaddr);
                proof {
                    let fi = tv.frame_at(paddr);
                    assert(tv.frames[fi].entries[index as int] == pte);
                    assert(tv.is_table_of(pte.paddr, (level - 1) as nat));
                }
                let _ = stack_push(&mut self.stack, child);
                proof {
                    let s2 = stack_items(self.stack);
                    assert forall|k: int| 0 <= k < s2.len() implies #[trigger] state_wf(tv, s2[k]) by {
                        if k < s1.len() {
                            assert(s2[k] == s1[k]);
                        }
                    }
                }
                continue;
            }
            let info = PteInfo { level, vaddr: current_vaddr, pte };
            proof {
                let fi = tv.frame_at(paddr);
                assert(tv.frames[fi].entries[index as int] == pte);
            }
            return Some(info);
        }
    }

    /// Hands out the next entry of the walk, or `None` when the walk has ended.
    pub fn next(&mut self) -> (r: Option<PteInfo>)
        requires
            old(self).inv(),
        ensures
            final(self).inv(),
            final(self).table() == old(self).table(),
            final(self).config() == old(self).config(),
            old(self).is_finished() ==> r is None && final(self).is_finished(),
            r is None ==> final(self).is_finished(),
            r matches Some(info) ==> info_ok(final(self).table(), final(self).config(), info),
            (r, final(self).stack(), final(self).is_finished())
                == walk_next(old(self).table(), old(self).config(), old(self).stack(), old(self).is_finished()),
    {
        self.find_next_entry()
    }
}


impl PageTable {
    /// A walk over the entries of this table that `config` selects.
    pub fn walk(&self, config: WalkConfig) -> (w: PageTableWalker<'_>)
        requires
            self@.wf(),
        ensures
            w.inv(),
            w.table() == self@,
            w.config() == config,
            w.is_finished() == (config.start_vaddr >= config.end_vaddr),
            config.start_vaddr < config.end_vaddr ==> w.stack()
                == seq![(self.root_paddr(), self@.layout.level, 0usize, 0usize)],
            config.start_vaddr >= config.end_vaddr ==> w.stack() == Seq::<WalkState>::empty(),
    {
        PageTableWalker::new(self, config)
    }

    /// A walk over the valid entries of this table, over the whole address
    /// space but its last address.
    pub fn walk_valid(&self) -> (w: PageTableWalker<'_>)
        requires
            self@.wf(),
        ensures
            w.inv(),
            w.table() == self@,
            w.config() == (WalkConfig { start_vaddr: 0, end_vaddr: usize::MAX, visit_invalid: false }),
            !w.is_finished(),
            w.stack() == seq![(self.root_paddr(), self@.layout.level, 0usize, 0usize)],
    {
        let config = WalkConfig { start_vaddr: 0, end_vaddr: usize::MAX, visit_invalid: false };
        self.walk(config)
    }
}


/// The configuration of `walk_valid`.
pub open spec fn valid_walk_config() -> WalkConfig {
    WalkConfig { start_vaddr: 0, end_vaddr: usize::MAX, visit_invalid: false }
}

/// Entry `m` of frame `fi` points to a table further down (if its table is
/// above level 1): it is valid and no block.
pub open spec fn points_down(table: PageTableView, fi: int, m: int) -> bool {
    table.frames[fi].entries[m].valid && !table.frames[fi].entries[m].is_huge
}

/// Entry `j` of frame `f` lies in the tree of frame `fi`, a table at `level`
/// that stands for the addresses from `base` on, where it stands for the
/// address `a`: it is an entry of `fi`, or, above level 1, of the tree that
/// an entry of `fi` points to.
pub open spec fn in_tree(table: PageTableView, fi: int, level: nat, base: int, f: int, j: int, a: int) -> bool
    decreases level,
{
    ||| (fi == f && 0 <= j < table.layout.table_len && a == base + j * table.layout.level_size(level))
    ||| (level > 1 && exists|m: int|
        #![trigger table.frames[fi].entries[m]]
        0 <= m < table.layout.table_len && points_down(table, fi, m)
            && in_tree(table, table.frame_at(table.frames[fi].entries[m].paddr), (level - 1) as nat,
                base + m * table.layout.level_size(level), f, j, a))
}

/// Entry `j` of frame `f`, standing for the address `a`, is still to be
/// read from the table `s` on the stack: it is an entry of that table not
/// read yet, or lies in the tree of such an entry.
pub open spec fn from_state(table: PageTableView, s: WalkState, f: int, j: int, a: int) -> bool {
    let fi = table.frame_at(s.0);
    let ls = table.layout.level_size(s.1 as nat);
    ||| (fi == f && s.2 <= j < table.layout.table_len && a == s.3 + j * ls)
    ||| (s.1 > 1 && exists|m: int|
        #![trigger table.frames[fi].entries[m]]
        s.2 <= m < table.layout.table_len && points_down(table, fi, m)
            && in_tree(table, table.frame_at(table.frames[fi].entries[m].paddr), (s.1 - 1) as nat,
                s.3 + m * ls, f, j, a))
}

/// Entry `j` of frame `f`, standing for the address `a`, is still to be
/// read from some table on the stack.
pub open spec fn pending(table: PageTableView, stack: Seq<WalkState>, f: int, j: int, a: int) -> bool {
    exists|k: int| 0 <= k < stack.len() && #[trigger] from_state(table, stack[k], f, j, a)
}

/// The address of the next entry that the table `s` on the stack reads.
pub open spec fn next_addr(table: PageTableView, s: WalkState) -> int {
    s.3 + s.2 * table.layout.level_size(s.1 as nat)
}

/// The stack of a walk from the root: the table at position `k` is a table
/// at level `level_count - k`, the addresses the tables stand for start at
/// a multiple of the page size and of the table's span, a walk from the
/// root for any of those addresses reaches that table, and each table above
/// the bottom stands for the addresses up to the next entry of the table
/// below it.
pub open spec fn root_chain(table: PageTableView, stack: Seq<WalkState>) -> bool {
    &&& stack.len() <= table.layout.level
    &&& forall|k: int| 0 <= k < stack.len() ==> {
        &&& #[trigger] state_wf(table, stack[k])
        &&& stack[k].1 == table.layout.level - k
        &&& stack[k].3 % table.layout.page_size == 0
        &&& stack[k].3 as int % (table_span(table.layout, stack[k].1 as nat) as int) == 0
    }
    &&& forall|k: int, x: usize|
        0 <= k < stack.len() && stack[k].3 <= x < stack[k].3 + table_span(table.layout, stack[k].1 as nat)
        ==> #[trigger] table.walk(table.frame_at(stack[k].0), stack[k].1 as nat, x) == table.walk(0, table.layout.level as nat, x)
    &&& forall|k: int| 1 <= k < stack.len()
        ==> #[trigger] stack[k].3 + table_span(table.layout, stack[k].1 as nat) == next_addr(table, stack[k - 1])
}

/// A valid last entry (a block, or an entry of a level-1 table).
pub open spec fn is_last_entry(table: PageTableView, f: int, j: int) -> bool {
    &&& 0 <= f < table.frames.len()
    &&& 0 <= j < table.frames[f].entries.len()
    &&& table.frames[f].entries[j].valid
    &&& (table.frames[f].entries[j].is_huge || table.frames[f].level == 1)
}


/// The address of an entry of a table on the stack fits in an address, the
/// entry's span ends inside its table's span, a table pushed for it ends no
/// later than the root table, and, in a table that stands for a multiple of
/// the page size, it is a multiple of the page size, below the last address
/// when pages are larger than one byte.
pub proof fn lemma_entry_vaddr_facts(table: PageTableView, s: WalkState)
    requires
        table.wf(),
        state_wf(table, s),
        s.2 < table.layout.table_len,
    ensures
        ({
            let v = entry_vaddr(table.layout, s.2, s.1 as nat, s.3);
            &&& 0 <= v <= usize::MAX
            &&& v + table.layout.level_size(s.1 as nat) <= s.3 + table_span(table.layout, s.1 as nat)
            &&& s.1 > 1 ==> v + table_span(table.layout, (s.1 - 1) as nat)
                <= table_span(table.layout, table.layout.level as nat)
            &&& s.3 % table.layout.page_size == 0 ==> v % (table.layout.page_size as int) == 0
            &&& s.3 % table.layout.page_size == 0 && table.layout.page_size >= 2 ==> v < usize::MAX
        }),
{
    let layout = table.layout;
    let l = s.1 as nat;
    let t = layout.table_len as int;
    let ps = layout.page_size as int;
    crate::layout::lemma_entry_span(layout, l);
    crate::layout::lemma_level_size(layout, l);
    if l > 1 {
        crate::layout::lemma_entry_span(layout, (l - 1) as nat);
    }
    let es = layout.level_size(l) as int;
    let idx = s.2 as int;
    let base = s.3 as int;
    assert(idx * es + es <= t * es) by (nonlinear_arith)
        requires 0 <= idx <= t - 1, 0 <= es;
    assert(idx * es >= 0) by (nonlinear_arith)
        requires idx >= 0, es >= 0;
    let v = base + idx * es;
    assert(v == entry_vaddr(layout, s.2, l, s.3));
    if base % ps == 0 {
        let q = es / ps;
        vstd::arithmetic::div_mod::lemma_fundamental_div_mod(es, ps);
        assert(idx * es == ps * (idx * q)) by (nonlinear_arith)
            requires es == ps * q;
        vstd::arithmetic::div_mod::lemma_fundamental_div_mod(base, ps);
        let bq = base / ps;
        assert(base == ps * bq);
        assert(v == ps * (bq + idx * q)) by (nonlinear_arith)
            requires v == base + idx * es, base == ps * bq, idx * es == ps * (idx * q);
        vstd::arithmetic::div_mod::lemma_mod_multiples_basic(bq + idx * q, ps);
        assert(ps * (bq + idx * q) == (bq + idx * q) * ps) by (nonlinear_arith);
        if layout.page_size >= 2 {
            lemma_aligned_below_max(layout, v);
        }
    }
}

/// A root stack is bounded, and a part of it from the bottom is a root stack.
pub proof fn lemma_root_chain_bounded(table: PageTableView, stack: Seq<WalkState>)
    requires
        root_chain(table, stack),
    ensures
        stack_bounded(table.layout.table_len as nat, stack),
        stack.len() > 0 ==> root_chain(table, stack.drop_last()),
{
    assert forall|k: int| 0 <= k < stack.len() implies (#[trigger] stack[k]).2 <= table.layout.table_len && stack[k].1 >= 1 by {
        assert(state_wf(table, stack[k]));
    }
    if stack.len() > 0 {
        let d = stack.drop_last();
        assert forall|k: int| 0 <= k < d.len() implies {
            &&& #[trigger] state_wf(table, d[k])
            &&& d[k].1 == table.layout.level - k
            &&& d[k].3 % table.layout.page_size == 0
            &&& d[k].3 as int % (table_span(table.layout, d[k].1 as nat) as int) == 0
        } by {
            assert(d[k] == stack[k]);
            assert(state_wf(table, stack[k]));
        }
        assert forall|k: int, x: usize|
            0 <= k < d.len() && d[k].3 <= x < d[k].3 + table_span(table.layout, d[k].1 as nat)
            implies #[trigger] table.walk(table.frame_at(d[k].0), d[k].1 as nat, x) == table.walk(0, table.layout.level as nat, x) by {
            assert(d[k] == stack[k]);
        }
        assert forall|k: int| 1 <= k < d.len()
            implies #[trigger] d[k].3 + table_span(table.layout, d[k].1 as nat) == next_addr(table, d[k - 1]) by {
            assert(d[k] == stack[k]);
            assert(d[k - 1] == stack[k - 1]);
        }
    }
}

/// The entries of the tree of a table at `level` that stands for the
/// addresses from `base` on stand for addresses inside the table's span.
pub proof fn lemma_in_tree_bounds(table: PageTableView, fi: int, level: nat, base: int, f: int, j: int, a: int)
    requires
        table.layout.wf(),
        1 <= level <= table.layout.level,
        in_tree(table, fi, level, base, f, j, a),
    ensures
        base <= a < base + table_span(table.layout, level),
    decreases level,
{
    let layout = table.layout;
    let t = layout.table_len as int;
    let ls = layout.level_size(level) as int;
    crate::layout::lemma_level_size(layout, level);
    crate::layout::lemma_entry_span(layout, level);
    if fi == f && 0 <= j < t && a == base + j * ls {
        assert(0 <= j * ls && j * ls + ls <= t * ls) by (nonlinear_arith)
            requires 0 <= j < t, ls > 0;
    } else {
        let m = choose|m: int|
            #![trigger table.frames[fi].entries[m]]
            0 <= m < t && points_down(table, fi, m)
                && in_tree(table, table.frame_at(table.frames[fi].entries[m].paddr), (level - 1) as nat,
                    base + m * ls, f, j, a);
        lemma_in_tree_bounds(table, table.frame_at(table.frames[fi].entries[m].paddr), (level - 1) as nat,
            base + m * ls, f, j, a);
        crate::layout::lemma_entry_span(layout, (level - 1) as nat);
        assert(0 <= m * ls && m * ls + ls <= t * ls) by (nonlinear_arith)
            requires 0 <= m < t, ls > 0;
    }
}

/// An entry still to be read from a table on the stack stands for an
/// address at or past that table's next entry and inside its span.
pub proof fn lemma_from_state_bounds(table: PageTableView, s: WalkState, f: int, j: int, a: int)
    requires
        table.layout.wf(),
        1 <= s.1 <= table.layout.level,
        s.2 <= table.layout.table_len,
        from_state(table, s, f, j, a),
    ensures
        next_addr(table, s) <= a < s.3 + table_span(table.layout, s.1 as nat),
{
    let layout = table.layout;
    let l = s.1 as nat;
    let t = layout.table_len as int;
    let ls = layout.level_size(l) as int;
    let fi = table.frame_at(s.0);
    crate::layout::lemma_level_size(layout, l);
    crate::layout::lemma_entry_span(layout, l);
    if fi == f && s.2 <= j < t && a == s.3 + j * ls {
        assert(s.2 * ls <= j * ls && j * ls + ls <= t * ls) by (nonlinear_arith)
            requires s.2 <= j < t, ls > 0;
    } else {
        let m = choose|m: int|
            #![trigger table.frames[fi].entries[m]]
            s.2 <= m < t && points_down(table, fi, m)
                && in_tree(table, table.frame_at(table.frames[fi].entries[m].paddr), (l - 1) as nat,
                    s.3 + m * ls, f, j, a);
        lemma_in_tree_bounds(table, table.frame_at(table.frames[fi].entries[m].paddr), (l - 1) as nat,
            s.3 + m * ls, f, j, a);
        crate::layout::lemma_entry_span(layout, (l - 1) as nat);
        assert(s.2 * ls <= m * ls && m * ls + ls <= t * ls) by (nonlinear_arith)
            requires s.2 <= m < t, ls > 0;
    }
}

/// On a root stack, the next entry of a table lower down comes no earlier
/// than the next entry of the top table.
pub proof fn lemma_chain_order(table: PageTableView, stack: Seq<WalkState>, k: int)
    requires
        table.wf(),
        root_chain(table, stack),
        0 <= k < stack.len(),
    ensures
        next_addr(table, stack[k]) >= next_addr(table, stack[stack.len() - 1]),
    decreases stack.len() - k,
{
    if k < stack.len() - 1 {
        lemma_chain_order(table, stack, k + 1);
        let s = stack[k + 1];
        assert(state_wf(table, s));
        let l = s.1 as nat;
        let t = table.layout.table_len as int;
        let ls = table.layout.level_size(l) as int;
        crate::layout::lemma_level_size(table.layout, l);
        crate::layout::lemma_entry_span(table.layout, l);
        assert(s.2 * ls <= t * ls) by (nonlinear_arith)
            requires s.2 <= t, ls > 0;
        assert(stack[k + 1].3 + table_span(table.layout, stack[k + 1].1 as nat) == next_addr(table, stack[k + 1 - 1]));
    }
}

/// An entry still to be read from a root stack stands for an address at or
/// past the next entry of the top table.
pub proof fn lemma_pending_past_top(table: PageTableView, stack: Seq<WalkState>, f: int, j: int, a: int)
    requires
        table.wf(),
        root_chain(table, stack),
        pending(table, stack, f, j, a),
    ensures
        stack.len() > 0,
        a >= next_addr(table, stack[stack.len() - 1]),
{
    let kk = choose|k: int| 0 <= k < stack.len() && #[trigger] from_state(table, stack[k], f, j, a);
    assert(state_wf(table, stack[kk]));
    lemma_from_state_bounds(table, stack[kk], f, j, a);
    lemma_chain_order(table, stack, kk);
}

/// Reading the next entry of the top table keeps a root stack a root stack.
pub proof fn lemma_root_chain_step(table: PageTableView, stack: Seq<WalkState>)
    requires
        table.wf(),
        root_chain(table, stack),
        stack.len() > 0,
        stack.last().2 < table.layout.table_len,
    ensures
        root_chain(table, stack.drop_last().push(
            (stack.last().0, stack.last().1, (stack.last().2 + 1) as usize, stack.last().3))),
{
    let n = stack.len() - 1;
    let top = stack.last();
    let top1 = (top.0, top.1, (top.2 + 1) as usize, top.3);
    let s1 = stack.drop_last().push(top1);
    assert(stack[n] == top);
    assert(state_wf(table, top));
    assert forall|k: int| 0 <= k < s1.len() implies {
        &&& #[trigger] state_wf(table, s1[k])
        &&& s1[k].1 == table.layout.level - k
        &&& s1[k].3 % table.layout.page_size == 0
        &&& s1[k].3 as int % (table_span(table.layout, s1[k].1 as nat) as int) == 0
    } by {
        if k < n {
            assert(s1[k] == stack[k]);
            assert(state_wf(table, stack[k]));
        } else {
            assert(s1[k] == top1);
        }
    }
    assert forall|k: int, x: usize|
        0 <= k < s1.len() && s1[k].3 <= x < s1[k].3 + table_span(table.layout, s1[k].1 as nat)
        implies #[trigger] table.walk(table.frame_at(s1[k].0), s1[k].1 as nat, x) == table.walk(0, table.layout.level as nat, x) by {
        if k < n {
            assert(s1[k] == stack[k]);
        } else {
            assert(s1[k] == top1);
            assert(table.walk(table.frame_at(stack[n].0), stack[n].1 as nat, x) == table.walk(0, table.layout.level as nat, x));
        }
    }
    assert forall|k: int| 1 <= k < s1.len()
        implies #[trigger] s1[k].3 + table_span(table.layout, s1[k].1 as nat) == next_addr(table, s1[k - 1]) by {
        assert(s1[k - 1] == stack[k - 1]);
        assert(stack[k].3 + table_span(table.layout, stack[k].1 as nat) == next_addr(table, stack[k - 1]));
        if k < n {
            assert(s1[k] == stack[k]);
        } else {
            assert(s1[k] == top1);
        }
    }
}

/// Pushing the table that the entry just read from the top points to keeps
/// a root stack a root stack.
pub proof fn lemma_root_chain_push(table: PageTableView, s1: Seq<WalkState>, child: WalkState)
    requires
        table.wf(),
        root_chain(table, s1),
        s1.len() > 0,
        s1.len() < table.layout.level,
        s1.last().1 > 1,
        1 <= s1.last().2 <= table.layout.table_len,
        table.is_table_of(child.0, (s1.last().1 - 1) as nat),
        child.1 == s1.last().1 - 1,
        child.2 == 0,
        child.3 == entry_vaddr(table.layout, (s1.last().2 - 1) as usize, s1.last().1 as nat, s1.last().3),
        points_down(table, table.frame_at(s1.last().0), s1.last().2 - 1),
        child.0 == table.frames[table.frame_at(s1.last().0)].entries[s1.last().2 - 1].paddr,
    ensures
        root_chain(table, s1.push(child)),
{
    let n = s1.len() - 1;
    let top1 = s1.last();
    assert(s1[n] == top1);
    assert(state_wf(table, top1));
    let l = top1.1 as nat;
    let prev = (top1.0, top1.1, (top1.2 - 1) as usize, top1.3);
    assert(state_wf(table, prev));
    lemma_entry_vaddr_facts(table, prev);
    crate::layout::lemma_level_size(table.layout, l);
    crate::layout::lemma_entry_span(table.layout, (l - 1) as nat);
    let ls = table.layout.level_size(l) as int;
    let s2 = s1.push(child);
    let t = table.layout.table_len as int;
    let idx = top1.2 - 1;
    let fi = table.frame_at(top1.0);
    let b = top1.3 as int;
    assert(state_wf(table, child));
    // the child stands for a multiple of its span, the entry size here
    crate::layout::lemma_entry_span(table.layout, l);
    lemma_pow2_pos(table.layout.index_bits as nat);
    assert(t * ls == table_span(table.layout, l));
    assert(t * ls > 0) by (nonlinear_arith)
        requires t > 0, ls > 0;
    assert(b % (t * ls) == 0);
    vstd::arithmetic::div_mod::lemma_fundamental_div_mod(b, t * ls);
    let c = b / (t * ls);
    assert(child.3 == (c * t + idx) * ls) by (nonlinear_arith)
        requires b == (t * ls) * c, child.3 == b + idx * ls;
    vstd::arithmetic::div_mod::lemma_mod_multiples_basic(c * t + idx, ls);
    assert forall|k: int| 0 <= k < s2.len() implies {
        &&& #[trigger] state_wf(table, s2[k])
        &&& s2[k].1 == table.layout.level - k
        &&& s2[k].3 % table.layout.page_size == 0
        &&& s2[k].3 as int % (table_span(table.layout, s2[k].1 as nat) as int) == 0
    } by {
        if k < s1.len() {
            assert(s2[k] == s1[k]);
            assert(state_wf(table, s1[k]));
        } else {
            assert(s2[k] == child);
        }
    }
    assert forall|k: int, x: usize|
        0 <= k < s2.len() && s2[k].3 <= x < s2[k].3 + table_span(table.layout, s2[k].1 as nat)
        implies #[trigger] table.walk(table.frame_at(s2[k].0), s2[k].1 as nat, x) == table.walk(0, table.layout.level as nat, x) by {
        if k < s1.len() {
            assert(s2[k] == s1[k]);
        } else {
            assert(s2[k] == child);
            assert(table.walk(table.frame_at(s1[n].0), s1[n].1 as nat, x) == table.walk(0, table.layout.level as nat, x));
            crate::layout::lemma_index_in_table(table.layout, l, b, x);
            vstd::arithmetic::div_mod::lemma_fundamental_div_mod_converse(x - b, ls, idx, x - b - idx * ls);
            assert(table.frames[fi].entries.len() == t);
            assert(table.walk(fi, l, x) == table.walk(table.frame_at(child.0), (l - 1) as nat, x));
        }
    }
    assert forall|k: int| 1 <= k < s2.len()
        implies #[trigger] s2[k].3 + table_span(table.layout, s2[k].1 as nat) == next_addr(table, s2[k - 1]) by {
        if k < s1.len() {
            assert(s2[k] == s1[k]);
            assert(s2[k - 1] == s1[k - 1]);
            assert(s1[k].3 + table_span(table.layout, s1[k].1 as nat) == next_addr(table, s1[k - 1]));
        } else {
            assert(s2[k] == child);
            assert(s2[k - 1] == top1);
            assert((top1.2 - 1) * ls + ls == top1.2 * ls) by (nonlinear_arith);
        }
    }
}

/// Every valid last entry that is still to be read from a root stack, at an
/// address inside the range of `config`, is handed out by the walk from
/// that stack, with the level of its table and that address (when the table
/// has at most as many levels as the stack has room).
#[verifier::rlimit(40)]
pub proof fn lemma_outputs_cover(table: PageTableView, config: WalkConfig, stack: Seq<WalkState>, f: int, j: int, a: int)
    requires
        table.wf(),
        table.layout.level <= MAX_WALK_DEPTH,
        root_chain(table, stack),
        config.start_vaddr <= a < config.end_vaddr,
        pending(table, stack, f, j, a),
        is_last_entry(table, f, j),
    ensures
        exists|k: int| 0 <= k < walk_outputs(table, config, stack, false).len()
            && (#[trigger] walk_outputs(table, config, stack, false)[k])
                == (PteInfo { level: table.frames[f].level as usize, vaddr: a as usize, pte: table.frames[f].entries[j] }),
    decreases stack_cost(table.layout.table_len as nat, stack),
{
    let t = table.layout.table_len as nat;
    let target = PteInfo { level: table.frames[f].level as usize, vaddr: a as usize, pte: table.frames[f].entries[j] };
    lemma_root_chain_bounded(table, stack);
    lemma_pending_past_top(table, stack, f, j, a);
    let kk = choose|k: int| 0 <= k < stack.len() && #[trigger] from_state(table, stack[k], f, j, a);
    let n = stack.len() - 1;
    let top = stack.last();
    assert(top == stack[n]);
    let (paddr, level, index, base) = top;
    assert(state_wf(table, top));
    let fi = table.frame_at(paddr);
    let outs = walk_outputs(table, config, stack, false);
    if index >= t {
        assert(kk != n);
        let d = stack.drop_last();
        assert(d[kk] == stack[kk]);
        assert(pending(table, d, f, j, a));
        assert(walk_next(table, config, stack, false) == walk_next(table, config, d, false));
        lemma_outputs_cover(table, config, d, f, j, a);
        assert(outs == walk_outputs(table, config, d, false));
    } else {
        let pte = table.frames[fi].entries[index as int];
        let s1 = stack.drop_last().push((paddr, level, (index + 1) as usize, base));
        let v = entry_vaddr(table.layout, index, level as nat, base);
        let ls = table.layout.level_size(level as nat) as int;
        lemma_entry_vaddr_facts(table, top);
        lemma_walk_step_facts(t, stack, pte.paddr, v as usize);
        crate::layout::lemma_level_size(table.layout, level as nat);
        if level > 1 {
            crate::layout::lemma_entry_span(table.layout, (level - 1) as nat);
        }
        assert(v == next_addr(table, top));
        let top1 = (paddr, level, (index + 1) as usize, base);
        assert(s1[n] == top1);
        assert forall|k: int| 0 <= k < n implies s1[k] == stack[k] by {}
        lemma_root_chain_step(table, stack);
        // what was to be read from the top, other than the entry read now
        // and the tree below it, is still to be read from the top one entry on
        if kk == n && !(fi == f && j == index as int && a == v) && !(level > 1 && points_down(table, fi, index as int)
            && in_tree(table, table.frame_at(pte.paddr), (level - 1) as nat, v, f, j, a)) {
            if fi == f && index <= j < t && a == base + j * ls {
                assert(from_state(table, top1, f, j, a));
            } else {
                let m = choose|m: int|
                    #![trigger table.frames[fi].entries[m]]
                    index <= m < t && points_down(table, fi, m)
                        && in_tree(table, table.frame_at(table.frames[fi].entries[m].paddr), (level - 1) as nat,
                            base + m * ls, f, j, a);
                assert(m != index);
                assert(top1.2 <= m < t);
                assert(table.frame_at(top1.0) == fi);
                assert(from_state(table, top1, f, j, a));
            }
            assert(pending(table, s1, f, j, a));
        }
        if kk < n {
            assert(s1[kk] == stack[kk]);
            assert(pending(table, s1, f, j, a));
        }
        if v < config.start_vaddr && !reaches_start(table, config, pte, level, v) {
            if kk == n && fi == f && j == index as int && a == v {
                assert(false);
            }
            if kk == n && level > 1 && points_down(table, fi, index as int)
                && in_tree(table, table.frame_at(pte.paddr), (level - 1) as nat, v, f, j, a) {
                lemma_in_tree_bounds(table, table.frame_at(pte.paddr), (level - 1) as nat, v, f, j, a);
            }
            assert(pending(table, s1, f, j, a));
            assert(walk_next(table, config, stack, false) == walk_next(table, config, s1, false));
            lemma_outputs_cover(table, config, s1, f, j, a);
            assert(outs == walk_outputs(table, config, s1, false));
        } else if v >= config.end_vaddr {
            assert(false);
        } else if !pte.valid && !config.visit_invalid {
            assert(pending(table, s1, f, j, a));
            assert(walk_next(table, config, stack, false) == walk_next(table, config, s1, false));
            lemma_outputs_cover(table, config, s1, f, j, a);
            assert(outs == walk_outputs(table, config, s1, false));
        } else if pte.valid && !pte.is_huge && level > 1 {
            let child = (pte.paddr, (level - 1) as usize, 0usize, v as usize);
            assert(s1.len() < MAX_WALK_DEPTH);
            let s2 = s1.push(child);
            assert(table.frames[fi].level == level);
            if kk == n && fi == f && j == index as int {
                assert(table.frames[f].entries[j] == pte);
            }
            assert(table.is_table_of(pte.paddr, (level - 1) as nat));
            lemma_root_chain_push(table, s1, child);
            if kk == n && level > 1 && points_down(table, fi, index as int)
                && in_tree(table, table.frame_at(pte.paddr), (level - 1) as nat, v, f, j, a) {
                assert(from_state(table, child, f, j, a));
                assert(s2[n + 1] == child);
                assert(pending(table, s2, f, j, a));
            } else {
                assert(pending(table, s1, f, j, a));
                let k1 = choose|k: int| 0 <= k < s1.len() && #[trigger] from_state(table, s1[k], f, j, a);
                assert(s2[k1] == s1[k1]);
                assert(pending(table, s2, f, j, a));
            }
            assert(walk_next(table, config, stack, false) == walk_next(table, config, s2, false));
            lemma_outputs_cover(table, config, s2, f, j, a);
            assert(outs == walk_outputs(table, config, s2, false));
        } else {
            let info = PteInfo { level, vaddr: v as usize, pte };
            assert(walk_next(table, config, stack, false) == (Some(info), s1, false));
            assert(outs == seq![info] + walk_outputs(table, config, s1, false));
            if kk == n && fi == f && j == index as int && a == v {
                assert(table.frames[fi].level == level);
                assert(outs[0] == target);
            } else {
                assert(pending(table, s1, f, j, a));
                lemma_outputs_cover(table, config, s1, f, j, a);
                let rest = walk_outputs(table, config, s1, false);
                let k1 = choose|k: int| 0 <= k < rest.len() && (#[trigger] rest[k]) == target;
                assert(outs[k1 + 1] == rest[k1]);
            }
        }
    }
}

/// The walk from a root stack hands out entries at strictly increasing
/// addresses, none before the next entry of the top table; each entry it
/// hands out stands at a multiple of its entry size, and each valid one is
/// the entry that the table translates its address through (when the table
/// has at most as many levels as the stack has room).
#[verifier::rlimit(40)]
pub proof fn lemma_outputs_sorted(table: PageTableView, config: WalkConfig, stack: Seq<WalkState>)
    requires
        table.wf(),
        table.layout.level <= MAX_WALK_DEPTH,
        root_chain(table, stack),
    ensures
        forall|i: int, k: int| 0 <= i < k < walk_outputs(table, config, stack, false).len()
            ==> (#[trigger] walk_outputs(table, config, stack, false)[i]).vaddr
                < (#[trigger] walk_outputs(table, config, stack, false)[k]).vaddr,
        stack.len() > 0 ==> forall|i: int| 0 <= i < walk_outputs(table, config, stack, false).len()
            ==> (#[trigger] walk_outputs(table, config, stack, false)[i]).vaddr >= next_addr(table, stack[stack.len() - 1]),
        forall|i: int| 0 <= i < walk_outputs(table, config, stack, false).len()
            ==> (#[trigger] walk_outputs(table, config, stack, false)[i]).vaddr as int
                % (table.layout.level_size(walk_outputs(table, config, stack, false)[i].level as nat) as int) == 0,
        forall|i: int| 0 <= i < walk_outputs(table, config, stack, false).len()
            && (#[trigger] walk_outputs(table, config, stack, false)[i]).pte.valid
            ==> table.translate(walk_outputs(table, config, stack, false)[i].vaddr)
                == Some((walk_outputs(table, config, stack, false)[i].pte, walk_outputs(table, config, stack, false)[i].level as nat)),
        forall|i: int| 0 <= i < walk_outputs(table, config, stack, false).len()
            ==> (#[trigger] walk_outputs(table, config, stack, false)[i]).vaddr
                < table_span(table.layout, table.layout.level as nat),
        !config.visit_invalid ==> forall|i: int| 0 <= i < walk_outputs(table, config, stack, false).len()
            ==> (#[trigger] walk_outputs(table, config, stack, false)[i]).pte.valid,
    decreases stack_cost(table.layout.table_len as nat, stack),
{
    let t = table.layout.table_len as nat;
    let outs = walk_outputs(table, config, stack, false);
    lemma_root_chain_bounded(table, stack);
    if stack.len() == 0 {
        assert(outs.len() == 0);
        return;
    }
    let n = stack.len() - 1;
    let top = stack.last();
    assert(top == stack[n]);
    let (paddr, level, index, base) = top;
    assert(state_wf(table, top));
    let fi = table.frame_at(paddr);
    let ls = table.layout.level_size(level as nat) as int;
    crate::layout::lemma_level_size(table.layout, level as nat);
    crate::layout::lemma_entry_span(table.layout, level as nat);
    assert(index * ls <= t * ls) by (nonlinear_arith)
        requires index <= t, ls > 0;
    if index >= t {
        let d = stack.drop_last();
        assert(walk_next(table, config, stack, false) == walk_next(table, config, d, false));
        lemma_outputs_sorted(table, config, d);
        assert(outs == walk_outputs(table, config, d, false));
        if n > 0 {
            assert(d[n - 1] == stack[n - 1]);
            assert(stack[n].3 + table_span(table.layout, stack[n].1 as nat) == next_addr(table, stack[n - 1]));
        }
    } else {
        let pte = table.frames[fi].entries[index as int];
        let s1 = stack.drop_last().push((paddr, level, (index + 1) as usize, base));
        let v = entry_vaddr(table.layout, index, level as nat, base);
        lemma_entry_vaddr_facts(table, top);
        lemma_walk_step_facts(t, stack, pte.paddr, v as usize);
        lemma_root_chain_step(table, stack);
        assert(v == next_addr(table, top));
        assert(s1[n] == (paddr, level, (index + 1) as usize, base));
        assert(next_addr(table, s1[s1.len() - 1]) == v + ls) by (nonlinear_arith)
            requires next_addr(table, s1[s1.len() - 1]) == base + (index + 1) * ls, v == base + index * ls;
        if v < config.start_vaddr && !reaches_start(table, config, pte, level, v) {
            assert(walk_next(table, config, stack, false) == walk_next(table, config, s1, false));
            lemma_outputs_sorted(table, config, s1);
            assert(outs == walk_outputs(table, config, s1, false));
        } else if v >= config.end_vaddr {
            assert(outs.len() == 0);
        } else if !pte.valid && !config.visit_invalid {
            assert(walk_next(table, config, stack, false) == walk_next(table, config, s1, false));
            lemma_outputs_sorted(table, config, s1);
            assert(outs == walk_outputs(table, config, s1, false));
        } else if pte.valid && !pte.is_huge && level > 1 {
            let child = (pte.paddr, (level - 1) as usize, 0usize, v as usize);
            assert(s1.len() < MAX_WALK_DEPTH);
            let s2 = s1.push(child);
            assert(table.frames[fi].level == level);
            assert(table.is_table_of(pte.paddr, (level - 1) as nat));
            lemma_root_chain_push(table, s1, child);
            assert(walk_next(table, config, stack, false) == walk_next(table, config, s2, false));
            lemma_outputs_sorted(table, config, s2);
            assert(outs == walk_outputs(table, config, s2, false));
            assert(s2[s2.len() - 1] == child);
        } else {
            let info = PteInfo { level, vaddr: v as usize, pte };
            assert(walk_next(table, config, stack, false) == (Some(info), s1, false));
            lemma_outputs_sorted(table, config, s1);
            let rest = walk_outputs(table, config, s1, false);
            assert(outs == seq![info] + rest);
            crate::layout::lemma_index_in_table(table.layout, level as nat, base as int, v as usize);
            vstd::arithmetic::div_mod::lemma_fundamental_div_mod_converse(v - base, ls, index as int, 0);
            assert(v as int % ls == 0);
            if pte.valid {
                assert(table.frames[fi].entries.len() == t);
                assert(table.walk(fi, level as nat, v as usize) == Some((pte, level as nat)));
                assert(table.walk(table.frame_at(stack[n].0), stack[n].1 as nat, v as usize)
                    == table.walk(0, table.layout.level as nat, v as usize));
            }
            assert forall|i: int| 0 <= i < outs.len() implies (#[trigger] outs[i]).vaddr >= v by {
                if i > 0 {
                    assert(outs[i] == rest[i - 1]);
                }
            }
            assert forall|i: int, k: int| 0 <= i < k < outs.len() implies (#[trigger] outs[i]).vaddr < (#[trigger] outs[k]).vaddr by {
                assert(outs[k] == rest[k - 1]);
                if i > 0 {
                    assert(outs[i] == rest[i - 1]);
                }
            }
            assert forall|i: int| 0 <= i < outs.len() implies (#[trigger] outs[i]).vaddr as int
                % (table.layout.level_size(outs[i].level as nat) as int) == 0 by {
                if i > 0 {
                    assert(outs[i] == rest[i - 1]);
                }
            }
            assert forall|i: int| 0 <= i < outs.len() && (#[trigger] outs[i]).pte.valid
                implies table.translate(outs[i].vaddr) == Some((outs[i].pte, outs[i].level as nat)) by {
                if i > 0 {
                    assert(outs[i] == rest[i - 1]);
                }
            }
            assert forall|i: int| 0 <= i < outs.len() implies (#[trigger] outs[i]).vaddr
                < table_span(table.layout, table.layout.level as nat) by {
                if i > 0 {
                    assert(outs[i] == rest[i - 1]);
                }
            }
            if !config.visit_invalid {
                assert forall|i: int| 0 <= i < outs.len() implies (#[trigger] outs[i]).pte.valid by {
                    if i > 0 {
                        assert(outs[i] == rest[i - 1]);
                    }
                }
            }
        }
    }
}

/// A walk for `x` from a table at `level` that stands for the addresses
/// from `base` on, a multiple of its span that holds `x`, ends on a valid
/// last entry of the tree of that table, which stands there for `x`
/// rounded down to the size of the entry.
pub proof fn lemma_walk_in_tree(table: PageTableView, fi: int, level: nat, base: int, x: usize)
    requires
        table.wf(),
        0 <= fi < table.frames.len(),
        table.frames[fi].level == level,
        base >= 0,
        base % (table_span(table.layout, level) as int) == 0,
        base <= x < base + table_span(table.layout, level),
        table.walk(fi, level, x) is Some,
    ensures
        exists|f: int, j: int|
            in_tree(table, fi, level, base, f, j,
                x - x as int % (table.layout.level_size(table.walk(fi, level, x).unwrap().1) as int))
                && is_last_entry(table, f, j)
                && table.frames[f].level == table.walk(fi, level, x).unwrap().1
                && #[trigger] table.frames[f].entries[j] == table.walk(fi, level, x).unwrap().0,
    decreases level,
{
    let layout = table.layout;
    let idx = layout.index_of(x, level) as int;
    let e = table.frames[fi].entries[idx];
    let ls = layout.level_size(level) as int;
    assert(1 <= level <= layout.level);
    crate::layout::lemma_index_in_table(layout, level, base, x);
    crate::layout::lemma_level_size(layout, level);
    crate::layout::lemma_level_shift_bounds(layout, level);
    crate::layout::lemma_masked_below(x >> (layout.index_shift(level) as usize), layout.index_bits);
    assert(table.frames[fi].entries.len() == layout.table_len);
    vstd::arithmetic::div_mod::lemma_fundamental_div_mod(x as int, ls);
    if e.is_huge || level == 1 {
        assert(table.walk(fi, level, x) == Some((e, level)));
        assert(in_tree(table, fi, level, base, fi, idx, x - x as int % ls));
        assert(is_last_entry(table, fi, idx));
    } else {
        let child = table.frame_at(e.paddr);
        assert(table.is_table_of(e.paddr, (level - 1) as nat));
        let b2 = base + idx * ls;
        crate::layout::lemma_entry_span(layout, (level - 1) as nat);
        vstd::arithmetic::div_mod::lemma_mod_multiples_basic(x as int / ls, ls);
        assert(b2 == (x as int / ls) * ls) by (nonlinear_arith)
            requires b2 == x - x as int % ls, x == ls * (x as int / ls) + x as int % ls;
        assert(table.walk(fi, level, x) == table.walk(child, (level - 1) as nat, x));
        lemma_walk_in_tree(table, child, (level - 1) as nat, b2, x);
        let l2 = table.walk(child, (level - 1) as nat, x).unwrap().1;
        let a2 = x - x as int % (layout.level_size(l2) as int);
        let (f, j) = choose|f: int, j: int|
            in_tree(table, child, (level - 1) as nat, b2, f, j, a2)
                && is_last_entry(table, f, j)
                && table.frames[f].level == l2
                && #[trigger] table.frames[f].entries[j] == table.walk(child, (level - 1) as nat, x).unwrap().0;
        assert(points_down(table, fi, idx));
        assert(in_tree(table, fi, level, base, f, j, a2));
    }
}

/// Every mapping of the table is found by a walk from the root whose range
/// holds the first address of the entry that maps it: for every address
/// that the root table spans and the table translates, the walk hands out
/// the entry it translates through, with the level of the entry's table and
/// the first address of the entry's span (for tables of at most as many
/// levels as the walk stack holds).
pub proof fn lemma_walk_finds_every_mapping(table: PageTableView, root: usize, config: WalkConfig, x: usize)
    requires
        table.wf(),
        table.layout.level <= MAX_WALK_DEPTH,
        table.is_table_of(root, table.layout.level as nat),
        table.frame_at(root) == 0,
        x < table_span(table.layout, table.layout.level as nat),
        table.translate(x) is Some,
        config.start_vaddr <= x - x as int % (table.layout.level_size(table.translate(x).unwrap().1) as int)
            < config.end_vaddr,
    ensures
        exists|k: int|
            0 <= k < walk_outputs(table, config, seq![(root, table.layout.level, 0usize, 0usize)], false).len()
            && (#[trigger] walk_outputs(table, config, seq![(root, table.layout.level, 0usize, 0usize)], false)[k])
                == (PteInfo {
                    level: table.translate(x).unwrap().1 as usize,
                    vaddr: (x - x as int % (table.layout.level_size(table.translate(x).unwrap().1) as int)) as usize,
                    pte: table.translate(x).unwrap().0,
                }),
{
    let layout = table.layout;
    let stack = seq![(root, layout.level, 0usize, 0usize)];
    let l = table.translate(x).unwrap().1;
    let a = x - x as int % (layout.level_size(l) as int);
    crate::table::lemma_page_size_positive(layout);
    crate::layout::lemma_entry_span(layout, layout.level as nat);
    lemma_pow2_pos((layout.page_shift() + layout.index_bits * layout.level) as nat);
    assert(0int % (table_span(layout, layout.level as nat) as int) == 0);
    lemma_walk_in_tree(table, 0, layout.level as nat, 0, x);
    let (f, j) = choose|f: int, j: int|
        in_tree(table, 0, layout.level as nat, 0, f, j, a)
            && is_last_entry(table, f, j)
            && table.frames[f].level == l
            && #[trigger] table.frames[f].entries[j] == table.walk(0, layout.level as nat, x).unwrap().0;
    assert(state_wf(table, stack[0]));
    assert(0usize % layout.page_size == 0);
    assert(root_chain(table, stack));
    assert(from_state(table, stack[0], f, j, a));
    assert(pending(table, stack, f, j, a));
    lemma_outputs_cover(table, config, stack, f, j, a);
}

/// Every mapping of the table is found by `walk_valid`: for every address
/// that the root table spans and the table translates, the walk from the
/// root hands out the entry it translates through, with the level of the
/// entry's table and the first address of the entry's span (for tables of
/// at most as many levels as the walk stack holds, and pages larger than
/// one byte).
pub proof fn lemma_walk_valid_finds_every_mapping(table: PageTableView, root: usize, x: usize)
    requires
        table.wf(),
        table.layout.level <= MAX_WALK_DEPTH,
        table.layout.page_size >= 2,
        table.is_table_of(root, table.layout.level as nat),
        table.frame_at(root) == 0,
        x < table_span(table.layout, table.layout.level as nat),
        table.translate(x) is Some,
    ensures
        exists|k: int|
            0 <= k < walk_outputs(table, valid_walk_config(), seq![(root, table.layout.level, 0usize, 0usize)], false).len()
            && (#[trigger] walk_outputs(table, valid_walk_config(), seq![(root, table.layout.level, 0usize, 0usize)], false)[k])
                == (PteInfo {
                    level: table.translate(x).unwrap().1 as usize,
                    vaddr: (x - x as int % (table.layout.level_size(table.translate(x).unwrap().1) as int)) as usize,
                    pte: table.translate(x).unwrap().0,
                }),
{
    let layout = table.layout;
    let l = table.translate(x).unwrap().1;
    let ls = layout.level_size(l) as int;
    let ps = layout.page_size as int;
    lemma_walk_level_in_range(table, 0, layout.level as nat, x);
    crate::layout::lemma_level_size(layout, l);
    let a = x - x as int % ls;
    vstd::arithmetic::div_mod::lemma_fundamental_div_mod(x as int, ls);
    vstd::arithmetic::div_mod::lemma_fundamental_div_mod(ls, ps);
    let q = x as int / ls;
    let m = ls / ps;
    assert(a == (m * q) * ps) by (nonlinear_arith)
        requires a == x - x as int % ls, x == ls * q + x as int % ls, ls == ps * m + ls % ps, ls % ps == 0;
    assert(q >= 0 && m >= 0) by (nonlinear_arith)
        requires x == ls * q + x as int % ls, 0 <= x as int % ls < ls, x >= 0, ls == ps * m, ls > 0, ps > 0;
    vstd::arithmetic::div_mod::lemma_mod_multiples_basic(m * q, ps);
    lemma_aligned_below_max(layout, a);
    lemma_walk_finds_every_mapping(table, root, valid_walk_config(), x);
}

/// A walk that ends on an entry ends at a level between 1 and the level it
/// starts from.
pub proof fn lemma_walk_level_in_range(table: PageTableView, fi: int, level: nat, x: usize)
    requires
        table.walk(fi, level, x) is Some,
    ensures
        1 <= table.walk(fi, level, x).unwrap().1 <= level,
    decreases level,
{
    let idx = table.layout.index_of(x, level) as int;
    let e = table.frames[fi].entries[idx];
    if !(e.is_huge || level == 1) {
        lemma_walk_level_in_range(table, table.frame_at(e.paddr), (level - 1) as nat, x);
    }
}

/// A multiple of a page size of at least two bytes lies below the last address.
pub proof fn lemma_aligned_below_max(layout: crate::layout::TableGeneric, a: int)
    requires
        layout.wf(),
        layout.page_size >= 2,
        0 <= a <= usize::MAX,
        a % (layout.page_size as int) == 0,
    ensures
        a < usize::MAX,
{
    let ps = layout.page_size as int;
    let sh = layout.page_shift() as usize;
    crate::layout::lemma_level_size(layout, 1);
    vstd::layout::unsigned_int_max_values();
    vstd::arithmetic::power2::lemma_pow2_adds(sh as nat, (usize::BITS - sh) as nat);
    let r = vstd::arithmetic::power2::pow2((usize::BITS - sh) as nat) as int;
    assert(usize::MAX + 1 == ps * r);
    vstd::arithmetic::div_mod::lemma_mod_multiples_basic(r, ps);
    assert(ps * r == r * ps) by (nonlinear_arith);
    if a == usize::MAX {
        vstd::arithmetic::div_mod::lemma_mod_add_multiples_vanish(1, ps);
        assert((a + 1) % ps == 0);
        vstd::arithmetic::div_mod::lemma_add_mod_noop(a, 1, ps);
        vstd::arithmetic::div_mod::lemma_small_mod(1, ps as nat);
        assert(1int % ps == 1);
    }
}

/// The stack that a walk from the root starts with is a root stack.
pub proof fn lemma_root_stack(table: PageTableView, root: usize)
    requires
        table.wf(),
        table.is_table_of(root, table.layout.level as nat),
        table.frame_at(root) == 0,
    ensures
        root_chain(table, seq![(root, table.layout.level, 0usize, 0usize)]),
{
    let layout = table.layout;
    let stack = seq![(root, layout.level, 0usize, 0usize)];
    crate::table::lemma_page_size_positive(layout);
    crate::layout::lemma_entry_span(layout, layout.level as nat);
    lemma_pow2_pos((layout.page_shift() + layout.index_bits * layout.level) as nat);
    assert(0int % (table_span(layout, layout.level as nat) as int) == 0);
    assert(state_wf(table, stack[0]));
    assert(0usize % layout.page_size == 0);
}

/// A walk from the root hands out entries at strictly increasing addresses,
/// so no address twice; each address is a multiple of the size of the
/// entry handed out there and lies inside the root table's span; each
/// valid entry handed out is the entry that the table translates its
/// address through, at the level handed out; and a walk that leaves out
/// invalid entries hands out valid ones only (for tables of at most as many
/// levels as the walk stack holds).
pub proof fn lemma_walk_in_address_order(table: PageTableView, root: usize, config: WalkConfig)
    requires
        table.wf(),
        table.layout.level <= MAX_WALK_DEPTH,
        table.is_table_of(root, table.layout.level as nat),
        table.frame_at(root) == 0,
    ensures
        ({
            let outs = walk_outputs(table, config, seq![(root, table.layout.level, 0usize, 0usize)], false);
            &&& forall|i: int, k: int| 0 <= i < k < outs.len() ==> (#[trigger] outs[i]).vaddr < (#[trigger] outs[k]).vaddr
            &&& forall|i: int| 0 <= i < outs.len() ==> {
                &&& (#[trigger] outs[i]).vaddr as int % (table.layout.level_size(outs[i].level as nat) as int) == 0
                &&& outs[i].vaddr < table_span(table.layout, table.layout.level as nat)
                &&& outs[i].pte.valid ==> table.translate(outs[i].vaddr) == Some((outs[i].pte, outs[i].level as nat))
                &&& !config.visit_invalid ==> outs[i].pte.valid
            }
        }),
{
    lemma_root_stack(table, root);
    lemma_outputs_sorted(table, config, seq![(root, table.layout.level, 0usize, 0usize)]);
}

/// The grid point `lo + k * step` is an item of `s`.
pub open spec fn grid_point_in(s: Seq<int>, lo: int, step: int, k: int) -> bool {
    exists|i: int| 0 <= i < s.len() && #[trigger] s[i] == lo + k * step
}

/// A strictly increasing sequence whose items all lie on the grid
/// `lo + k * step` for `k < n`, and which holds every point of that grid,
/// is that grid in order.
pub proof fn lemma_sorted_grid(s: Seq<int>, lo: int, step: int, n: nat)
    requires
        step > 0,
        forall|i: int, k: int| 0 <= i < k < s.len() ==> #[trigger] s[i] < #[trigger] s[k],
        forall|i: int| 0 <= i < s.len() ==> lo <= #[trigger] s[i] < lo + n * step && (s[i] - lo) % step == 0,
        forall|k: int| 0 <= k < n ==> #[trigger] grid_point_in(s, lo, step, k),
    ensures
        s.len() == n,
        forall|i: int| 0 <= i < n ==> #[trigger] s[i] == lo + i * step,
{
    lemma_sorted_grid_prefix(s, lo, step, n, s.len() as int);
    if s.len() < n {
        let k = s.len() as int;
        assert(grid_point_in(s, lo, step, k));
        let i = choose|i: int| 0 <= i < s.len() && #[trigger] s[i] == lo + k * step;
        assert(s[i] == lo + i * step);
        assert(i * step < k * step) by (nonlinear_arith)
            requires i < k, step > 0;
    }
}

/// The first `m` items of such a sequence are the first `m` grid points.
proof fn lemma_sorted_grid_prefix(s: Seq<int>, lo: int, step: int, n: nat, m: int)
    requires
        step > 0,
        0 <= m <= s.len(),
        forall|i: int, k: int| 0 <= i < k < s.len() ==> #[trigger] s[i] < #[trigger] s[k],
        forall|i: int| 0 <= i < s.len() ==> lo <= #[trigger] s[i] < lo + n * step && (s[i] - lo) % step == 0,
        forall|k: int| 0 <= k < n ==> #[trigger] grid_point_in(s, lo, step, k),
    ensures
        forall|i: int| 0 <= i < m ==> #[trigger] s[i] == lo + i * step,
        m <= n,
    decreases m,
{
    if m > 0 {
        lemma_sorted_grid_prefix(s, lo, step, n, m - 1);
        let i = m - 1;
        let q = (s[i] - lo) / step;
        vstd::arithmetic::div_mod::lemma_fundamental_div_mod(s[i] - lo, step);
        assert(s[i] == lo + q * step) by (nonlinear_arith)
            requires s[i] - lo == step * q + (s[i] - lo) % step, (s[i] - lo) % step == 0;
        assert(0 <= q < n) by (nonlinear_arith)
            requires s[i] == lo + q * step, lo <= s[i] < lo + n * step, step > 0;
        // the point i comes no later than item i, and item i no earlier
        if i > 0 {
            assert(s[i - 1] < s[i]);
            assert(s[i - 1] == lo + (i - 1) * step);
            assert(q > i - 1) by (nonlinear_arith)
                requires lo + (i - 1) * step < lo + q * step, step > 0;
        }
        assert(q >= i);
        assert(i < n) by (nonlinear_arith)
            requires q >= i, q < n;
        assert(grid_point_in(s, lo, step, i));
        let w = choose|w: int| 0 <= w < s.len() && #[trigger] s[w] == lo + i * step;
        if w < i {
            assert(s[w] == lo + w * step);
            assert(w * step < i * step) by (nonlinear_arith)
                requires w < i, step > 0;
        }
        if w > i {
            assert(s[i] < s[w]);
            assert(q < i) by (nonlinear_arith)
                requires lo + q * step < lo + i * step, step > 0;
        }
        assert(w == i);
    }
}

/// The walk over the valid entries of `table` from the root hands out
/// exactly the pages of the range of `config`, in order: item `k` is the
/// level-1 entry at `vaddr + k * page_size` that holds
/// `paddr + k * page_size` with the bits of the template.
pub open spec fn walks_back_pages(table: PageTableView, root: usize, config: MapConfig) -> bool {
    let outs = walk_outputs(table, valid_walk_config(), seq![(root, table.layout.level, 0usize, 0usize)], false);
    let ps = table.layout.page_size as int;
    &&& outs.len() == config.size as int / ps
    &&& forall|k: int| 0 <= k < outs.len() ==> #[trigger] outs[k] == (PteInfo {
        level: 1,
        vaddr: (config.vaddr + k * ps) as usize,
        pte: Pte { paddr: (config.paddr + k * ps) as usize, valid: true, is_huge: false, attrs: config.pte.attrs },
    })
}

/// Mapping whole pages into a table that maps nothing, without blocks: the
/// walk over the valid entries hands out exactly the pages of the range, in
/// order, item `k` being the level-1 entry at `vaddr + k * page_size` that
/// holds `paddr + k * page_size` with the bits of the template. The table
/// after the map is taken by what `PageTable::map` ensures on success: every
/// address of the range translates to the same offset in the physical range
/// through a level-1 entry that is no block, with the bits of the template,
/// and no address outside the range translates otherwise than before (for
/// ranges inside the root table's span, tables of at most as many levels as
/// the walk stack holds, and pages larger than one byte).
pub proof fn lemma_fresh_map_walks_back(t0: PageTableView, t1: PageTableView, root: usize, config: MapConfig)
    requires
        t1.wf(),
        t1.layout == t0.layout,
        t1.layout.level <= MAX_WALK_DEPTH,
        t1.layout.page_size >= 2,
        t1.is_table_of(root, t1.layout.level as nat),
        t1.frame_at(root) == 0,
        forall|x: usize| #[trigger] t0.translate(x) is None,
        config.vaddr % t1.layout.page_size == 0,
        config.size % t1.layout.page_size == 0,
        config.vaddr + config.size <= table_span(t1.layout, t1.layout.level as nat),
        forall|x: usize| config.vaddr <= x < config.vaddr + config.size
            ==> #[trigger] t1.maps(x, config.paddr + (x - config.vaddr), config.pte.attrs),
        forall|x: usize| config.vaddr <= x < config.vaddr + config.size
            ==> (#[trigger] t1.translate(x) matches Some((e, l)) && l == 1 && !e.is_huge),
        forall|x: usize| x < table_span(t1.layout, t1.layout.level as nat)
            && (x < config.vaddr || x >= page_end(t1.layout, config.vaddr + config.size))
            ==> #[trigger] t1.translate(x) == t0.translate(x),
    ensures
        walks_back_pages(t1, root, config),
{
    let layout = t1.layout;
    let ps = layout.page_size as int;
    let cfg = valid_walk_config();
    let stack = seq![(root, layout.level, 0usize, 0usize)];
    let outs = walk_outputs(t1, cfg, stack, false);
    let lo = config.vaddr as int;
    let end = config.vaddr + config.size;
    let n = (config.size as int / ps) as nat;
    crate::layout::lemma_level_size(layout, 1);
    vstd::arithmetic::div_mod::lemma_fundamental_div_mod(config.size as int, ps);
    assert(end == lo + n * ps) by (nonlinear_arith)
        requires config.size == ps * n + config.size as int % ps, config.size as int % ps == 0,
            end == lo + config.size;
    assert(page_end(layout, end) == end) by {
        vstd::arithmetic::div_mod::lemma_mod_multiples_vanish(n as int, lo, ps);
        assert(ps * n + lo == end) by (nonlinear_arith)
            requires end == lo + n * ps;
    }
    lemma_walk_in_address_order(t1, root, cfg);
    let s = outs.map_values(|o: PteInfo| o.vaddr as int);
    // every item is a page of the range, handed out as the map wrote it
    assert forall|i: int| 0 <= i < outs.len() implies {
        &&& lo <= #[trigger] outs[i].vaddr < end
        &&& outs[i].level == 1
        &&& (outs[i].vaddr - lo) % ps == 0
        &&& outs[i].pte == (Pte { paddr: (config.paddr + (outs[i].vaddr - lo)) as usize, valid: true, is_huge: false, attrs: config.pte.attrs })
    } by {
        let o = outs[i];
        assert(o.pte.valid);
        assert(t1.translate(o.vaddr) == Some((o.pte, o.level as nat)));
        assert(o.vaddr < table_span(layout, layout.level as nat));
        if o.vaddr < lo || o.vaddr >= end {
            assert(t1.translate(o.vaddr) == t0.translate(o.vaddr));
        }
        assert(t1.maps(o.vaddr, config.paddr + (o.vaddr - lo), config.pte.attrs));
        assert(o.vaddr as int % ps == 0);
        vstd::arithmetic::div_mod::lemma_fundamental_div_mod(lo, ps);
        vstd::arithmetic::div_mod::lemma_fundamental_div_mod(o.vaddr as int, ps);
        let a = o.vaddr as int / ps;
        let b = lo / ps;
        assert(o.vaddr - lo == (a - b) * ps) by (nonlinear_arith)
            requires o.vaddr == ps * a, lo == ps * b;
        vstd::arithmetic::div_mod::lemma_mod_multiples_basic(a - b, ps);
    }
    assert forall|i: int, k: int| 0 <= i < k < s.len() implies #[trigger] s[i] < #[trigger] s[k] by {
        assert(outs[i].vaddr < outs[k].vaddr);
    }
    assert forall|i: int| 0 <= i < s.len() implies lo <= #[trigger] s[i] < lo + n * ps && (s[i] - lo) % ps == 0 by {
        assert(lo <= outs[i].vaddr < end);
    }
    // every page of the range is handed out
    assert forall|k: int| 0 <= k < n implies #[trigger] grid_point_in(s, lo, ps, k) by {
        let x = lo + k * ps;
        assert(0 <= k * ps < n * ps) by (nonlinear_arith)
            requires 0 <= k < n, ps > 0;
        crate::layout::lemma_entry_span(layout, layout.level as nat);
        let xu = x as usize;
        assert(xu as int == x);
        assert(t1.maps(xu, config.paddr + (xu - lo), config.pte.attrs));
        assert(t1.translate(xu) matches Some((e, l)) && l == 1);
        vstd::arithmetic::div_mod::lemma_mod_multiples_vanish(k, lo, ps);
        assert(ps * k + lo == x) by (nonlinear_arith)
            requires x == lo + k * ps;
        assert(xu as int % ps == 0);
        lemma_walk_valid_finds_every_mapping(t1, root, xu);
        let i = choose|i: int| 0 <= i < outs.len() && (#[trigger] outs[i]).vaddr
            == (xu - xu as int % (layout.level_size(t1.translate(xu).unwrap().1) as int)) as usize;
        assert(s[i] == x);
    }
    lemma_sorted_grid(s, lo, ps, n);
    assert forall|k: int| 0 <= k < outs.len() implies #[trigger] outs[k] == (PteInfo {
        level: 1,
        vaddr: (config.vaddr + k * ps) as usize,
        pte: Pte { paddr: (config.paddr + k * ps) as usize, valid: true, is_huge: false, attrs: config.pte.attrs },
    }) by {
        assert(s[k] == lo + k * ps);
        assert(lo <= outs[k].vaddr < end);
    }
}

} // verus!
