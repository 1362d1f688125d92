use vstd::prelude::*;

use crate::avl_tree::{spec_add, AvlTree};
use crate::config::DpConfigTable;
use crate::header::{field_matches, key_readable, Field, Header};
use crate::parse_result::ParseResult;
use crate::radix_tree::{key_bits, RadixTree};
use vstd::string::StringExecFns;

verus! {

/// The action a flow entry selects, with its parameters.
pub struct ActionSet {
    pub action_id: u8,
    pub action_data: Vec<i32>,
}

impl ActionSet {
    /// `other` selects the same action with the same parameters.
    pub open spec fn same_action(&self, other: ActionSet) -> bool {
        self.action_id == other.action_id && self.action_data@ == other.action_data@
    }
}

impl Clone for ActionSet {
    fn clone(&self) -> (r: ActionSet)
        ensures
            r.same_action(*self),
    {
        ActionSet { action_id: self.action_id, action_data: self.action_data.clone() }
    }
}

/// `a` and `b` hold the same actions, in order.
pub open spec fn same_actions(a: Seq<ActionSet>, b: Seq<ActionSet>) -> bool {
    &&& a.len() == b.len()
    &&& forall|i: int| 0 <= i < a.len() ==> (#[trigger] a[i]).same_action(b[i])
}

/// A copy of a list of actions.
pub fn copy_actions(data: &Vec<ActionSet>) -> (r: Vec<ActionSet>)
    ensures
        same_actions(r@, data@),
{
    let r = data.clone();
    assert forall|i: int| 0 <= i < r@.len() implies (#[trigger] r@[i]).same_action(data@[i]) by {
        assert(cloned(data@[i], r@[i]));
    }
    r
}

/// The value a flow entry matches one key against: `None` matches anything;
/// the last byte of the value is compared under `prefix_mask`.
pub struct MatchFieldValue {
    pub value: Option<Vec<u8>>,
    pub prefix_mask: u8,
}

/// A flow entry: one value per key of its table, a priority, an action.
pub struct FlowEntry {
    pub values: Vec<MatchFieldValue>,
    pub priority: u8,
    pub action: ActionSet,
}

/// How a key of a table matches.
pub enum MatchKind {
    Exact,
    Lpm,
}

/// The search tree of a table: a trie for a longest-prefix key, a binary
/// search tree for an exact one.
pub enum Tree {
    Radix(RadixTree),
    Avl(AvlTree),
}

/// A match-action table. Each key names a field of a header type, as
/// (header index, field index), and how it matches; the entries live in a
/// search tree built on the key at `tree_key_index`.
pub struct Table {
    pub tree: Tree,
    pub tree_key_index: usize,
    pub keys: Vec<((usize, usize), MatchKind)>,
    pub default_entry: FlowEntry,
    pub header_list: Vec<Header>,
}

/// The match kind a configuration string names: "lpm", else exact.
pub open spec fn kind_of(match_kind: Seq<char>) -> MatchKind {
    if match_kind == seq!['l', 'p', 'm'] {
        MatchKind::Lpm
    } else {
        MatchKind::Exact
    }
}

fn match_kind_of(match_kind: &String) -> (r: MatchKind)
    ensures
        r == kind_of(match_kind@),
{
    let lpm = String::from_str("lpm");
    proof {
        reveal_strlit("lpm");
        assert("lpm"@ =~= seq!['l', 'p', 'm']);
    }
    if *match_kind == lpm {
        MatchKind::Lpm
    } else {
        MatchKind::Exact
    }
}

/// The longest-prefix check between a candidate's value for a key and that
/// of the entry chosen so far: a wildcard never replaces a value; in every
/// other case the candidate passes.
pub open spec fn spec_lpm_check(new_entry: MatchFieldValue, old_entry: MatchFieldValue) -> bool {
    !(new_entry.value is None && old_entry.value is Some)
}

fn lpm_check(new_entry: &MatchFieldValue, old_entry: &MatchFieldValue) -> (r: bool)
    ensures
        r == spec_lpm_check(*new_entry, *old_entry),
{
    if new_entry.value.is_none() && !old_entry.value.is_none() {
        false
    } else if !new_entry.value.is_none() && old_entry.value.is_none() {
        true
    } else {
        new_entry.value.is_none() == old_entry.value.is_none()
    }
}

impl Tree {
    pub open spec fn wf(&self) -> bool {
        match self {
            Tree::Radix(t) => t.wf(),
            Tree::Avl(t) => t.wf(),
        }
    }

    /// The index of the key the tree files its entries under.
    pub open spec fn key_index(&self) -> usize {
        match self {
            Tree::Radix(t) => t.key_index(),
            Tree::Avl(t) => t.key_index(),
        }
    }

    /// The tree holds no entry.
    pub open spec fn is_empty(&self) -> bool {
        match self {
            Tree::Radix(t) => {
                &&& t.any() == Seq::<FlowEntry>::empty()
                &&& forall|p: Seq<bool>| #[trigger]
                    t.entries_at(p) == (if p.len() == 0 {
                        Some(Seq::<FlowEntry>::empty())
                    } else {
                        None::<Seq<FlowEntry>>
                    })
            },
            Tree::Avl(t) => {
                &&& t.root() is None
                &&& t.vnodes().len() == 0
                &&& t.any() == Seq::<FlowEntry>::empty()
            },
        }
    }

    /// `entry` can be added: it has a value for the tree's key, and, in a
    /// binary search tree, the insertion ends.
    pub open spec fn insert_ready(&self, entry: FlowEntry) -> bool {
        &&& self.key_index() < entry.values@.len()
        &&& match self {
            Tree::Radix(t) => entry.values@[t.key_index() as int].value matches Some(v) ==> v@.len() >= 1,
            Tree::Avl(t) => t.add_defined(entry),
        }
    }

    /// `entry` can be added, and, in a binary search tree, the insertion
    /// ends within as many steps of descent and of balancing as the tree has
    /// nodes (see `AvlTree::add_fits`).
    pub open spec fn insert_fits_bounded(&self, entry: FlowEntry) -> bool {
        &&& self.key_index() < entry.values@.len()
        &&& match self {
            Tree::Radix(t) => entry.values@[t.key_index() as int].value matches Some(v) ==> v@.len() >= 1,
            Tree::Avl(t) => spec_add(t.root(), t.vnodes(), t.any(), t.key_index() as int, entry, t.vnodes().len()) is Some,
        }
    }

    /// `after` is this tree once `entry` has been added.
    pub open spec fn inserted(&self, after: Tree, entry: FlowEntry) -> bool {
        match (self, after) {
            (Tree::Radix(a), Tree::Radix(b)) => a.added(b, entry),
            (Tree::Avl(a), Tree::Avl(b)) => {
                &&& b.wf()
                &&& b.key_index() == a.key_index()
                &&& (b.root(), b.vnodes(), b.any()) == a.add_result(entry)
            },
            _ => false,
        }
    }
}

impl Table {
    pub open spec fn wf(&self) -> bool {
        self.tree.wf()
    }

    /// The field key `j` reads.
    pub open spec fn key_field(&self, j: int) -> Field {
        let (h, f) = self.keys@[j].0;
        self.header_list@[h as int].fields@[f as int]
    }

    /// The header offset of the field key `j` reads, in a parsed packet.
    pub open spec fn key_offset(&self, j: int, pr: ParseResult) -> u16 {
        pr.header_list@[self.keys@[j].0.0 as int].offset
    }

    /// Key `j` names a header and a field that exist.
    pub open spec fn key_valid(&self, j: int, pr: ParseResult) -> bool {
        let (h, f) = self.keys@[j].0;
        &&& h < self.header_list@.len()
        &&& h < pr.header_list@.len()
        &&& f < self.header_list@[h as int].fields@.len()
    }

    /// Where the bytes of the tree key stand in the packet: (offset, length).
    pub open spec fn tree_key_span(&self, pr: ParseResult) -> (int, int) {
        let f = self.key_field(self.tree_key_index as int);
        (
            self.key_offset(self.tree_key_index as int, pr) + f.start_byte_pos,
            f.end_byte_pos - f.start_byte_pos + 1,
        )
    }

    /// The bytes of the tree key in the packet.
    pub open spec fn tree_key(&self, pkt: Seq<u8>, pr: ParseResult) -> Seq<u8> {
        let (off, len) = self.tree_key_span(pr);
        pkt.subrange(off, off + len)
    }

    /// The entries the tree returns for the packet.
    pub open spec fn candidates(&self, pkt: Seq<u8>, pr: ParseResult) -> Seq<FlowEntry> {
        let key = self.tree_key(pkt, pr);
        match self.tree {
            Tree::Radix(t) => t.search_result(key_bits(key, 8 * key.len() as int)),
            Tree::Avl(t) => t.search_result(key),
        }
    }

    /// Key `j` of candidate `e` passes against `best`, the entry chosen so
    /// far: its value, if it has one, equals the packet's field, and for a
    /// longest-prefix key the prefix check passes.
    pub open spec fn key_passes(&self, e: FlowEntry, best: FlowEntry, j: int, pkt: Seq<u8>, pr: ParseResult) -> bool {
        let ev = e.values@[j];
        let lpm_ok = self.keys@[j].1 is Lpm ==> spec_lpm_check(ev, best.values@[j]);
        match ev.value {
            None => lpm_ok,
            Some(v) => field_matches(self.key_field(j), pkt, self.key_offset(j, pr), v@, ev.prefix_mask) && lpm_ok,
        }
    }

    /// Every key but the tree key passes.
    pub open spec fn entry_passes(&self, e: FlowEntry, best: FlowEntry, pkt: Seq<u8>, pr: ParseResult) -> bool {
        forall|j: int|
            0 <= j < self.keys@.len() && j != self.tree_key_index ==> #[trigger] self.key_passes(e, best, j, pkt, pr)
    }

    /// The entry chosen among the first `n` candidates: starting from the
    /// default entry, each candidate that passes and whose priority is at
    /// least that of the entry chosen so far replaces it.
    pub open spec fn select(&self, cands: Seq<FlowEntry>, n: int, pkt: Seq<u8>, pr: ParseResult) -> FlowEntry
        decreases n,
    {
        if n <= 0 {
            self.default_entry
        } else {
            let best = self.select(cands, n - 1, pkt, pr);
            let e = cands[n - 1];
            if self.entry_passes(e, best, pkt, pr) && best.priority <= e.priority {
                e
            } else {
                best
            }
        }
    }

    /// The entry a search of the packet returns.
    pub open spec fn search_result(&self, pkt: Seq<u8>, pr: ParseResult) -> FlowEntry {
        let cands = self.candidates(pkt, pr);
        self.select(cands, cands.len() as int, pkt, pr)
    }

    /// What a search of the packet reads exists: the tree key names a field
    /// inside the packet, a binary search tree's descent ends, and every
    /// candidate has a value for each key, each non-tree key it gives a value
    /// for naming a field whose bytes the packet holds.
    pub open spec fn search_ready(&self, pkt: Seq<u8>, pr: ParseResult) -> bool {
        let tki = self.tree_key_index as int;
        let (off, len) = self.tree_key_span(pr);
        let cands = self.candidates(pkt, pr);
        &&& tki < self.keys@.len()
        &&& self.key_valid(tki, pr)
        &&& self.key_field(tki).start_byte_pos <= self.key_field(tki).end_byte_pos
        &&& off + len <= pkt.len()
        &&& self.tree matches Tree::Avl(t) ==> t.search_defined(self.tree_key(pkt, pr))
        &&& self.default_entry.values@.len() >= self.keys@.len()
        &&& forall|i: int| 0 <= i < cands.len() ==> (#[trigger] cands[i]).values@.len() >= self.keys@.len()
        &&& forall|i: int, j: int|
            0 <= i < cands.len() && 0 <= j < self.keys@.len() && j != tki ==> #[trigger] self.value_readable(
                cands[i],
                j,
                pkt,
                pr,
            )
    }

    /// If `e` gives a value for key `j`, the key names a field whose bytes
    /// the packet holds.
    pub open spec fn value_readable(&self, e: FlowEntry, j: int, pkt: Seq<u8>, pr: ParseResult) -> bool {
        e.values@[j].value matches Some(v) ==> {
            &&& self.key_valid(j, pr)
            &&& key_readable(self.key_field(j), pkt, self.key_offset(j, pr), v@)
        }
    }

    /// Where the bytes of the tree key stand in a packet of `pkt_len` bytes.
    fn tree_key_location(&self, parse_result: &ParseResult, pkt_len: usize) -> (r: (usize, usize))
        requires
            (self.tree_key_index as int) < self.keys@.len(),
            self.key_valid(self.tree_key_index as int, *parse_result),
            self.key_field(self.tree_key_index as int).start_byte_pos <= self.key_field(
                self.tree_key_index as int,
            ).end_byte_pos,
            self.tree_key_span(*parse_result).0 + self.tree_key_span(*parse_result).1 <= pkt_len,
        ensures
            r.0 == self.tree_key_span(*parse_result).0,
            r.1 == self.tree_key_span(*parse_result).1,
    {
        let (header_id, field_id) = self.keys[self.tree_key_index].0;
        let field = &self.header_list[header_id].fields[field_id];
        let field_offset = parse_result.header_list[header_id].offset as usize + field.start_byte_pos;
        let field_len = field.end_byte_pos - field.start_byte_pos + 1;
        (field_offset, field_len)
    }

    /// Checks every key but the tree key of candidate `e` against `best`,
    /// the entry chosen so far (see `entry_passes`).
    fn entry_matches(&self, e: &FlowEntry, best: &FlowEntry, pkt: &[u8], parse_result: &ParseResult) -> (r: bool)
        requires
            self.tree_key_index < self.keys@.len(),
            e.values@.len() >= self.keys@.len(),
            best.values@.len() >= self.keys@.len(),
            forall|j: int|
                0 <= j < self.keys@.len() && j != self.tree_key_index ==> #[trigger] self.value_readable(
                    *e,
                    j,
                    pkt@,
                    *parse_result,
                ),
        ensures
            r == self.entry_passes(*e, *best, pkt@, *parse_result),
    {
        let n = self.keys.len();
        let mut success_match_count: usize = 0;
        let mut j: usize = 0;
        let ghost mut jj: int = 0;
        while j < n
            invariant
                n == self.keys@.len(),
                self.tree_key_index < n,
                e.values@.len() >= n,
                best.values@.len() >= n,
                forall|k: int|
                    0 <= k < n && k != self.tree_key_index ==> #[trigger] self.value_readable(
                        *e,
                        k,
                        pkt@,
                        *parse_result,
                    ),
                jj == j,
                j <= n,
                success_match_count == (if self.tree_key_index < jj { jj - 1 } else { jj }),
                forall|k: int|
                    0 <= k < jj && k != self.tree_key_index ==> #[trigger] self.key_passes(
                        *e,
                        *best,
                        k,
                        pkt@,
                        *parse_result,
                    ),
            ensures
                (success_match_count + 1 == n) == self.entry_passes(*e, *best, pkt@, *parse_result),
            decreases n - j,
        {
            if self.tree_key_index == j {
                j = j + 1;
                proof {
                    jj = jj + 1;
                }
                continue;
            }
            let (header_id, field_id) = self.keys[j].0;
            let is_lpm = match self.keys[j].1 {
                MatchKind::Lpm => true,
                MatchKind::Exact => false,
            };
            let ev = &e.values[j];
            let passed = match &ev.value {
                None => !is_lpm || lpm_check(ev, &best.values[j]),
                Some(value) => {
                    assert(self.value_readable(*e, jj, pkt@, *parse_result));
                    let field = &self.header_list[header_id].fields[field_id];
                    field.cmp_pkt(pkt, parse_result.header_list[header_id].offset, value, ev.prefix_mask) && (!is_lpm
                        || lpm_check(ev, &best.values[j]))
                },
            };
            assert(passed == self.key_passes(*e, *best, jj, pkt@, *parse_result));
            if !passed {
                break;
            }
            success_match_count = success_match_count + 1;
            j = j + 1;
            proof {
                jj = jj + 1;
            }
        }
        success_match_count + 1 == n
    }

    /// Searches the table for the packet: the tree gives the candidates for
    /// the bytes of the tree key; among those whose other keys all pass, the
    /// last one of highest priority is returned, the default entry when none
    /// passes (see `search_result`).
    pub fn search<'a>(&'a self, pkt: &[u8], parse_result: &ParseResult) -> (r: &'a FlowEntry)
        requires
            self.wf(),
            self.search_ready(pkt@, *parse_result),
        ensures
            *r == self.search_result(pkt@, *parse_result),
    {
        let (field_offset, field_len) = self.tree_key_location(parse_result, pkt.len());
        let entries = match &self.tree {
            Tree::Radix(tree) => tree.search(pkt, field_offset, field_len),
            Tree::Avl(tree) => tree.search(pkt, field_offset, field_len),
        };
        let ghost cands = self.candidates(pkt@, *parse_result);
        assert(entries@ == cands);
        let mut result_entry = &self.default_entry;
        let mut i: usize = 0;
        let ghost mut ii: int = 0;
        while i < entries.len()
            invariant
                self.search_ready(pkt@, *parse_result),
                cands == self.candidates(pkt@, *parse_result),
                entries@ == cands,
                ii == i,
                i <= entries@.len(),
                *result_entry == self.select(cands, ii, pkt@, *parse_result),
                result_entry.values@.len() >= self.keys@.len(),
            decreases entries@.len() - i,
        {
            let e = &entries[i];
            assert(*e == cands[ii]);
            assert forall|j: int| 0 <= j < self.keys@.len() && j != self.tree_key_index implies #[trigger] self.value_readable(
                *e,
                j,
                pkt@,
                *parse_result,
            ) by {
                assert(self.value_readable(cands[ii], j, pkt@, *parse_result));
            }
            if self.entry_matches(e, result_entry, pkt, parse_result) {
                if result_entry.priority <= e.priority {
                    result_entry = e;
                }
            }
            i = i + 1;
            proof {
                ii = ii + 1;
            }
        }
        result_entry
    }

    /// A table built from its configuration: one key per configured key,
    /// a default entry that matches anything with the configured default
    /// action, and an empty tree on the configured tree key (on key 0 when
    /// the configured index is out of range), a trie if that key is "lpm".
    pub fn new(table_conf: &DpConfigTable, header_list: Vec<Header>) -> (r: Table)
        requires
            table_conf.keys@.len() >= 1,
        ensures
            r.wf(),
            r.tree.is_empty(),
            r.tree.key_index() == (if table_conf.tree_key_index < table_conf.keys@.len() {
                table_conf.tree_key_index
            } else {
                0
            }),
            r.tree is Radix <==> kind_of(table_conf.keys@[r.tree.key_index() as int].match_kind@) is Lpm,
            r.tree_key_index == table_conf.tree_key_index,
            r.keys@.len() == table_conf.keys@.len(),
            forall|j: int|
                0 <= j < r.keys@.len() ==> #[trigger] r.keys@[j] == (
                    (table_conf.keys@[j].header_id as usize, table_conf.keys@[j].field_id as usize),
                    kind_of(table_conf.keys@[j].match_kind@),
                ),
            r.default_entry.values@.len() == table_conf.keys@.len(),
            forall|j: int|
                0 <= j < r.default_entry.values@.len() ==> (#[trigger] r.default_entry.values@[j]).value is None
                    && r.default_entry.values@[j].prefix_mask == 0,
            r.default_entry.priority == 0,
            r.default_entry.action.action_id == table_conf.default_action_id as u8,
            r.default_entry.action.action_data@ == Seq::<i32>::empty(),
            r.header_list == header_list,
    {
        let n = table_conf.keys.len();
        let mut keys: Vec<((usize, usize), MatchKind)> = Vec::new();
        let mut values: Vec<MatchFieldValue> = Vec::new();
        let mut tree = match match_kind_of(&table_conf.keys[0].match_kind) {
            MatchKind::Lpm => Tree::Radix(RadixTree::new(0)),
            MatchKind::Exact => Tree::Avl(AvlTree::new(0)),
        };
        let mut i: usize = 0;
        while i < n
            invariant
                n == table_conf.keys@.len(),
                n >= 1,
                0 <= i <= n,
                keys@.len() == i,
                values@.len() == i,
                forall|j: int|
                    0 <= j < i ==> #[trigger] keys@[j] == (
                        (table_conf.keys@[j].header_id as usize, table_conf.keys@[j].field_id as usize),
                        kind_of(table_conf.keys@[j].match_kind@),
                    ),
                forall|j: int| 0 <= j < i ==> (#[trigger] values@[j]).value is None && values@[j].prefix_mask == 0,
                tree.wf(),
                tree.is_empty(),
                tree.key_index() == (if table_conf.tree_key_index < i { table_conf.tree_key_index } else { 0 }),
                tree is Radix <==> kind_of(table_conf.keys@[tree.key_index() as int].match_kind@) is Lpm,
            decreases n - i,
        {
            let key = &table_conf.keys[i];
            let match_field = (key.header_id as usize, key.field_id as usize);
            let match_kind = match_kind_of(&key.match_kind);
            keys.push((match_field, match_kind));
            values.push(MatchFieldValue { value: None, prefix_mask: 0 });
            if i == table_conf.tree_key_index {
                tree = match match_kind_of(&key.match_kind) {
                    MatchKind::Lpm => Tree::Radix(RadixTree::new(i)),
                    MatchKind::Exact => Tree::Avl(AvlTree::new(i)),
                };
            }
            i = i + 1;
        }
        Table {
            tree,
            tree_key_index: table_conf.tree_key_index,
            keys,
            default_entry: FlowEntry {
                values,
                priority: 0,
                action: ActionSet { action_id: table_conf.default_action_id as u8, action_data: Vec::new() },
            },
            header_list,
        }
    }

    /// Adds `entry` to the table's tree.
    pub fn insert(&mut self, entry: FlowEntry)
        requires
            old(self).wf(),
            old(self).tree.insert_ready(entry),
        ensures
            final(self).wf(),
            old(self).tree.inserted(final(self).tree, entry),
            final(self).tree_key_index == old(self).tree_key_index,
            final(self).keys == old(self).keys,
            final(self).default_entry == old(self).default_entry,
            final(self).header_list == old(self).header_list,
    {
        match &mut self.tree {
            Tree::Radix(tree) => tree.add(entry),
            Tree::Avl(tree) => tree.add(entry),
        }
    }

    /// Whether `entry` can be added with the insertion into a binary search
    /// tree ending within as many steps as it has nodes (see
    /// `Tree::insert_fits_bounded`); when it can, it is ready to be inserted.
    pub fn insert_fits(&self, entry: &FlowEntry) -> (r: bool)
        requires
            self.wf(),
        ensures
            r == self.tree.insert_fits_bounded(*entry),
            r ==> self.tree.insert_ready(*entry),
    {
        match &self.tree {
            Tree::Radix(tree) => tree.add_fits(entry),
            Tree::Avl(tree) => tree.add_fits(entry),
        }
    }

    /// Removing an entry is not supported: the table is left as it is.
    pub fn delete(&mut self, entry_id: usize)
        ensures
            *final(self) == *old(self),
    {
    }
}

proof fn lemma_select(t: Table, cands: Seq<FlowEntry>, n: int, pkt: Seq<u8>, pr: ParseResult)
    requires
        0 <= n <= cands.len(),
    ensures
        t.select(cands, n, pkt, pr) == t.default_entry || exists|i: int|
            0 <= i < n && t.select(cands, n, pkt, pr) == cands[i] && #[trigger] t.entry_passes(
                cands[i],
                t.select(cands, i, pkt, pr),
                pkt,
                pr,
            ),
        forall|i: int|
            0 <= i <= n ==> (#[trigger] t.select(cands, i, pkt, pr)).priority <= t.select(cands, n, pkt, pr).priority,
        forall|i: int|
            0 <= i < n && #[trigger] t.entry_passes(cands[i], t.select(cands, i, pkt, pr), pkt, pr) ==> cands[i].priority
                <= t.select(cands, n, pkt, pr).priority,
    decreases n,
{
    if n > 0 {
        lemma_select(t, cands, n - 1, pkt, pr);
        let best = t.select(cands, n - 1, pkt, pr);
        let e = cands[n - 1];
        if t.entry_passes(e, best, pkt, pr) && best.priority <= e.priority {
            assert(t.entry_passes(cands[n - 1], t.select(cands, n - 1, pkt, pr), pkt, pr));
        }
    }
}

/// Law of a table search: the entry returned is the default entry, or a
/// candidate of the tree for the packet whose keys all passed when its turn
/// came; and no candidate that passed at its turn has a higher priority than
/// the entry returned.
pub proof fn law_search_result(t: Table, pkt: Seq<u8>, pr: ParseResult)
    ensures
        ({
            let cands = t.candidates(pkt, pr);
            let r = t.search_result(pkt, pr);
            &&& r == t.default_entry || exists|i: int|
                0 <= i < cands.len() && r == cands[i] && #[trigger] t.entry_passes(
                    cands[i],
                    t.select(cands, i, pkt, pr),
                    pkt,
                    pr,
                )
            &&& forall|i: int|
                0 <= i < cands.len() && #[trigger] t.entry_passes(cands[i], t.select(cands, i, pkt, pr), pkt, pr)
                    ==> cands[i].priority <= r.priority
            &&& t.default_entry.priority <= r.priority
        }),
{
    let cands = t.candidates(pkt, pr);
    lemma_select(t, cands, cands.len() as int, pkt, pr);
    assert(t.select(cands, 0, pkt, pr) == t.default_entry);
}

/// Every value `e` gives for a key other than the tree key equals the
/// packet's field under that key (a key without a value matches anything).
pub open spec fn matches_packet(t: Table, e: FlowEntry, pkt: Seq<u8>, pr: ParseResult) -> bool {
    forall|j: int|
        0 <= j < t.keys@.len() && j != t.tree_key_index ==> match (#[trigger] e.values@[j]).value {
            Some(v) => field_matches(t.key_field(j), pkt, t.key_offset(j, pr), v@, e.values@[j].prefix_mask),
            None => true,
        }
}

/// `e` gives a value for every longest-prefix key other than the tree key.
pub open spec fn valued_on_lpm_keys(t: Table, e: FlowEntry) -> bool {
    forall|j: int|
        0 <= j < t.keys@.len() && j != t.tree_key_index && (#[trigger] t.keys@[j]).1 is Lpm ==> e.values@[j].value is Some
}

proof fn lemma_passes_matches(t: Table, e: FlowEntry, best: FlowEntry, pkt: Seq<u8>, pr: ParseResult)
    requires
        t.entry_passes(e, best, pkt, pr),
    ensures
        matches_packet(t, e, pkt, pr),
{
    assert forall|j: int| 0 <= j < t.keys@.len() && j != t.tree_key_index implies match (#[trigger] e.values@[j]).value {
        Some(v) => field_matches(t.key_field(j), pkt, t.key_offset(j, pr), v@, e.values@[j].prefix_mask),
        None => true,
    } by {
        assert(t.key_passes(e, best, j, pkt, pr));
    }
}

proof fn lemma_select_below(t: Table, cands: Seq<FlowEntry>, n: int, pkt: Seq<u8>, pr: ParseResult, i: int)
    requires
        0 <= n <= i < cands.len(),
        t.default_entry.priority <= cands[i].priority,
        forall|k: int|
            0 <= k < cands.len() && k != i && matches_packet(t, #[trigger] cands[k], pkt, pr) ==> cands[k].priority
                < cands[i].priority,
    ensures
        t.select(cands, n, pkt, pr).priority <= cands[i].priority,
    decreases n,
{
    if n > 0 {
        lemma_select_below(t, cands, n - 1, pkt, pr, i);
        let best = t.select(cands, n - 1, pkt, pr);
        if t.entry_passes(cands[n - 1], best, pkt, pr) {
            lemma_passes_matches(t, cands[n - 1], best, pkt, pr);
        }
    }
}

proof fn lemma_select_stays(t: Table, cands: Seq<FlowEntry>, n: int, pkt: Seq<u8>, pr: ParseResult, i: int)
    requires
        0 <= i < n <= cands.len(),
        matches_packet(t, cands[i], pkt, pr),
        valued_on_lpm_keys(t, cands[i]),
        t.default_entry.priority <= cands[i].priority,
        forall|k: int|
            0 <= k < cands.len() && k != i && matches_packet(t, #[trigger] cands[k], pkt, pr) ==> cands[k].priority
                < cands[i].priority,
    ensures
        t.select(cands, n, pkt, pr) == cands[i],
    decreases n,
{
    let c = cands[i];
    if n == i + 1 {
        lemma_select_below(t, cands, i, pkt, pr, i);
        let best = t.select(cands, i, pkt, pr);
        assert forall|j: int| 0 <= j < t.keys@.len() && j != t.tree_key_index implies #[trigger] t.key_passes(
            c,
            best,
            j,
            pkt,
            pr,
        ) by {
            assert(c.values@[j] == c.values@[j]);
            if t.keys@[j].1 is Lpm {
                assert(c.values@[j].value is Some);
            }
        }
    } else {
        lemma_select_stays(t, cands, n - 1, pkt, pr, i);
        if t.entry_passes(cands[n - 1], c, pkt, pr) {
            lemma_passes_matches(t, cands[n - 1], c, pkt, pr);
        }
    }
}

/// Law of a table search, priority wins: a candidate of the tree for the
/// packet that matches the packet on every other key, gives a value for
/// every longest-prefix key, has at least the default entry's priority and
/// a strictly higher priority than every other candidate that matches the
/// packet, is the entry the search returns, wherever it stands among the
/// candidates. In particular two matching entries that both give a value on
/// a longest-prefix key are ranked by priority alone.
pub proof fn law_search_priority_wins(t: Table, pkt: Seq<u8>, pr: ParseResult, i: int)
    requires
        0 <= i < t.candidates(pkt, pr).len(),
        matches_packet(t, t.candidates(pkt, pr)[i], pkt, pr),
        valued_on_lpm_keys(t, t.candidates(pkt, pr)[i]),
        t.default_entry.priority <= t.candidates(pkt, pr)[i].priority,
        forall|k: int|
            0 <= k < t.candidates(pkt, pr).len() && k != i && matches_packet(
                t,
                #[trigger] t.candidates(pkt, pr)[k],
                pkt,
                pr,
            ) ==> t.candidates(pkt, pr)[k].priority < t.candidates(pkt, pr)[i].priority,
    ensures
        t.search_result(pkt, pr) == t.candidates(pkt, pr)[i],
{
    let cands = t.candidates(pkt, pr);
    lemma_select_stays(t, cands, cands.len() as int, pkt, pr, i);
}

} // verus!
