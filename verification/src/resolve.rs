//! Wrap resolution: one record per requested symbol, two monotonic flags per
//! record, and the decision policy applied once all artifacts are scanned.

use crate::strutil::concat2;
use crate::strutil::str_eq;
use vstd::prelude::*;

verus! {

/// The wrapper-implementation name for a requested symbol: `__wrap_<name>`.
pub open spec fn wrap_name(sym: Seq<char>) -> Seq<char> {
    "__wrap_"@ + sym
}

/// Build the wrapper-implementation name `__wrap_<name>`.
pub fn make_wrap_name(sym: &str) -> (r: String)
    ensures
        r@ == wrap_name(sym@),
{
    concat2("__wrap_", sym)
}

/// Resolution state for one requested wrap symbol.
#[verifier::ext_equal]
pub struct SymbolState {
    /// The bare requested symbol name.
    pub name: String,
    /// The precomputed name `__wrap_<name>` whose presence means a wrapper
    /// implementation already exists among the inputs.
    pub wrapped_name: String,
    /// Set once `__wrap_<name>` has been observed in any scanned artifact.
    pub wrapper_present: bool,
    /// Set once the bare name has been observed in any scanned artifact.
    pub original_referenced: bool,
}

impl SymbolState {
    /// The stored wrapper name is derived from the stored bare name.
    pub open spec fn wf(self) -> bool {
        self.wrapped_name@ == wrap_name(self.name@)
    }
}

/// Whether the `original_referenced` flag holds after the symbols `syms` have
/// been applied to a record for `name` whose flag started as `init`.
pub open spec fn referenced_after(init: bool, name: Seq<char>, syms: Seq<Seq<char>>) -> bool {
    init || syms.contains(name)
}

/// Whether the `wrapper_present` flag holds after the symbols `syms` have been
/// applied to a record for `name` whose flag started as `init`.
pub open spec fn present_after(init: bool, name: Seq<char>, syms: Seq<Seq<char>>) -> bool {
    init || syms.contains(wrap_name(name))
}

/// The record for one requested symbol after the symbols `syms` have been
/// applied to it in some order.
pub open spec fn scanned_state(e: SymbolState, syms: Seq<Seq<char>>) -> SymbolState {
    SymbolState {
        wrapper_present: present_after(e.wrapper_present, e.name@, syms),
        original_referenced: referenced_after(e.original_referenced, e.name@, syms),
        ..e
    }
}

/// First-occurrence deduplication of a sequence of names.
pub open spec fn dedup_names(names: Seq<Seq<char>>) -> Seq<Seq<char>>
    decreases names.len(),
{
    if names.len() == 0 {
        Seq::empty()
    } else {
        let rest = dedup_names(names.drop_last());
        if rest.contains(names.last()) {
            rest
        } else {
            rest.push(names.last())
        }
    }
}

/// One resolution record per distinct requested symbol, in the order the
/// symbols were first requested.
pub struct ResolutionTable {
    /// The per-symbol records.
    pub entries: Vec<SymbolState>,
}

impl ResolutionTable {
    /// The requested names, in table order.
    pub open spec fn names(self) -> Seq<Seq<char>> {
        self.entries@.map_values(|e: SymbolState| e.name@)
    }

    /// Record names are pairwise distinct, and each record is well formed.
    pub open spec fn wf(self) -> bool {
        &&& forall|i: int| 0 <= i < self.entries@.len() ==> (#[trigger] self.entries@[i]).wf()
        &&& forall|i: int, j: int|
            0 <= i < j < self.entries@.len() ==> self.entries@[i].name@ != self.entries@[j].name@
    }
}

/// Whether some record already carries this name.
fn entries_contain(entries: &Vec<SymbolState>, name: &str) -> (r: bool)
    ensures
        r == exists|i: int| 0 <= i < entries@.len() && (#[trigger] entries@[i]).name@ == name@,
{
    let n = entries.len();
    let mut i: usize = 0;
    while i < n
        invariant
            n == entries.len(),
            i <= n,
            forall|j: int| 0 <= j < i ==> (#[trigger] entries@[j]).name@ != name@,
        decreases n - i,
    {
        if str_eq(entries[i].name.as_str(), name) {
            return true;
        }
        i += 1;
    }
    false
}

/// Build the table for the requested symbols: duplicate requests collapse to
/// one record, every record starts with both flags false.
pub fn new_table(wrap_symbols: &Vec<String>) -> (t: ResolutionTable)
    ensures
        t.wf(),
        t.names() == dedup_names(wrap_symbols.deep_view()),
        forall|i: int|
            0 <= i < t.entries@.len() ==> !(#[trigger] t.entries@[i]).wrapper_present
                && !t.entries@[i].original_referenced,
{
    let ghost dv = wrap_symbols.deep_view();
    let mut entries: Vec<SymbolState> = Vec::new();
    let n = wrap_symbols.len();
    let mut i: usize = 0;
    proof {
        assert(entries@.map_values(|e: SymbolState| e.name@) =~= Seq::<Seq<char>>::empty());
    }
    while i < n
        invariant
            n == wrap_symbols.len(),
            dv == wrap_symbols.deep_view(),
            i <= n,
            entries@.map_values(|e: SymbolState| e.name@) == dedup_names(dv.take(i as int)),
            forall|j: int| 0 <= j < entries@.len() ==> (#[trigger] entries@[j]).wf(),
            forall|j: int, k: int|
                0 <= j < k < entries@.len() ==> entries@[j].name@ != entries@[k].name@,
            forall|j: int|
                0 <= j < entries@.len() ==> !(#[trigger] entries@[j]).wrapper_present
                    && !entries@[j].original_referenced,
        decreases n - i,
    {
        let ghost names = entries@.map_values(|e: SymbolState| e.name@);
        proof {
            assert(dv.take(i + 1 as int).drop_last() =~= dv.take(i as int));
            assert(dv.take(i + 1 as int).last() == wrap_symbols@[i as int]@);
            assert forall|j: int| 0 <= j < entries@.len() implies #[trigger] names[j]
                == entries@[j].name@ by {}
        }
        let sym = &wrap_symbols[i];
        if !entries_contain(&entries, sym.as_str()) {
            proof {
                assert(!names.contains(sym@));
            }
            let wrapped = make_wrap_name(sym.as_str());
            let entry = SymbolState {
                name: sym.clone(),
                wrapped_name: wrapped,
                wrapper_present: false,
                original_referenced: false,
            };
            entries.push(entry);
            proof {
                assert(entries@.map_values(|e: SymbolState| e.name@) =~= names.push(sym@));
            }
        } else {
            proof {
                let j0 = choose|j: int|
                    0 <= j < entries@.len() && (#[trigger] entries@[j]).name@ == sym@;
                assert(names[j0] == sym@);
                assert(names.contains(sym@));
            }
        }
        i += 1;
    }
    proof {
        assert(dv.take(n as int) =~= dv);
    }
    ResolutionTable { entries }
}

/// A one-element sequence contains exactly its element.
proof fn lemma_singleton_contains(x: Seq<char>, y: Seq<char>)
    ensures
        seq![x].contains(y) == (x == y),
{
    assert(seq![x][0] == x);
    if seq![x].contains(y) {
        let k = choose|k: int|
            #![trigger seq![x][k]]
            0 <= k < seq![x].len() && seq![x][k] == y;
        assert(k == 0);
    }
    if x == y {
        assert(seq![x][0] == y);
        assert(seq![x].contains(y));
    }
}

/// Membership in a prefix extended by one element.
proof fn lemma_contains_take_step(s: Seq<Seq<char>>, j: int, x: Seq<char>)
    requires
        0 <= j < s.len(),
    ensures
        s.take(j + 1).contains(x) == (s.take(j).contains(x) || s[j] == x),
{
    assert(s.take(j + 1) =~= s.take(j).push(s[j]));
    if s.take(j + 1).contains(x) {
        let k = choose|k: int|
            #![trigger s.take(j + 1)[k]]
            0 <= k < s.take(j + 1).len() && s.take(j + 1)[k] == x;
        if k < j {
            assert(s.take(j)[k] == x);
        }
    }
    if s.take(j).contains(x) {
        let k = choose|k: int|
            #![trigger s.take(j)[k]]
            0 <= k < s.take(j).len() && s.take(j)[k] == x;
        assert(s.take(j + 1)[k] == x);
    }
    if s[j] == x {
        assert(s.take(j + 1)[j] == x);
    }
}

impl ResolutionTable {
    /// Apply one observed symbol name to every record: the bare requested name
    /// marks the original as referenced, `__wrap_<name>` marks the wrapper as
    /// present. Flags only ever move from false to true.
    pub fn record_symbol(&mut self, sym: &str)
        requires
            old(self).wf(),
        ensures
            final(self).wf(),
            final(self).entries@.len() == old(self).entries@.len(),
            forall|i: int|
                0 <= i < final(self).entries@.len() ==> #[trigger] final(self).entries@[i]
                    == scanned_state(old(self).entries@[i], seq![sym@]),
    {
        let n = self.entries.len();
        let mut i: usize = 0;
        while i < n
            invariant
                n == self.entries.len(),
                old(self).wf(),
                self.entries@.len() == old(self).entries@.len(),
                i <= n,
                forall|j: int|
                    0 <= j < i ==> #[trigger] self.entries@[j] == scanned_state(
                        old(self).entries@[j],
                        seq![sym@],
                    ),
                forall|j: int| i <= j < n ==> self.entries@[j] == old(self).entries@[j],
            decreases n - i,
        {
            let ghost prev = self.entries@[i as int];
            if str_eq(sym, self.entries[i].name.as_str()) {
                let entry = &mut self.entries[i];
                entry.original_referenced = true;
            }
            if str_eq(sym, self.entries[i].wrapped_name.as_str()) {
                let entry = &mut self.entries[i];
                entry.wrapper_present = true;
            }
            proof {
                lemma_singleton_contains(sym@, prev.name@);
                lemma_singleton_contains(sym@, wrap_name(prev.name@));
                assert(self.entries@[i as int] =~= scanned_state(prev, seq![sym@]));
            }
            i += 1;
        }
    }

    /// Apply every symbol observed in one artifact's dump output. The final
    /// flags are the monotonic accumulation over the whole list: a flag holds
    /// afterwards exactly when it held before or its name occurs in `syms`.
    pub fn record_symbols(&mut self, syms: &Vec<String>)
        requires
            old(self).wf(),
        ensures
            final(self).wf(),
            final(self).entries@.len() == old(self).entries@.len(),
            forall|i: int|
                0 <= i < final(self).entries@.len() ==> #[trigger] final(self).entries@[i]
                    == scanned_state(old(self).entries@[i], syms.deep_view()),
    {
        let ghost dv = syms.deep_view();
        let n = syms.len();
        let mut i: usize = 0;
        proof {
            assert forall|j: int| 0 <= j < self.entries@.len() implies #[trigger] self.entries@[j]
                == scanned_state(old(self).entries@[j], dv.take(0)) by {
                assert(!dv.take(0).contains(self.entries@[j].name@));
                assert(!dv.take(0).contains(wrap_name(self.entries@[j].name@)));
                assert(self.entries@[j] =~= scanned_state(old(self).entries@[j], dv.take(0)));
            }
        }
        while i < n
            invariant
                n == syms.len(),
                dv == syms.deep_view(),
                old(self).wf(),
                self.wf(),
                self.entries@.len() == old(self).entries@.len(),
                i <= n,
                forall|j: int|
                    0 <= j < self.entries@.len() ==> #[trigger] self.entries@[j] == scanned_state(
                        old(self).entries@[j],
                        dv.take(i as int),
                    ),
            decreases n - i,
        {
            let ghost mid = self.entries@;
            self.record_symbol(syms[i].as_str());
            proof {
                assert forall|j: int| 0 <= j < self.entries@.len() implies #[trigger] self
                    .entries@[j] == scanned_state(old(self).entries@[j], dv.take(i + 1)) by {
                    lemma_contains_take_step(dv, i as int, old(self).entries@[j].name@);
                    lemma_contains_take_step(dv, i as int, wrap_name(old(self).entries@[j].name@));
                    lemma_singleton_contains(dv[i as int], old(self).entries@[j].name@);
                    lemma_singleton_contains(dv[i as int], wrap_name(old(self).entries@[j].name@));
                    assert(self.entries@[j] == scanned_state(mid[j], seq![dv[i as int]]));
                    assert(self.entries@[j] =~= scanned_state(
                        old(self).entries@[j],
                        dv.take(i + 1),
                    ));
                }
            }
            i += 1;
        }
        proof {
            assert(dv.take(n as int) =~= dv);
        }
    }

    /// Apply the symbol lists of all artifacts, one after the other. The final
    /// flags do not depend on the order of the artifacts: a flag holds exactly
    /// when it held initially or some artifact reports its name.
    pub fn record_artifacts(&mut self, artifact_symbols: &Vec<Vec<String>>)
        requires
            old(self).wf(),
        ensures
            final(self).wf(),
            final(self).entries@.len() == old(self).entries@.len(),
            forall|i: int|
                0 <= i < final(self).entries@.len() ==> #[trigger] final(self).entries@[i]
                    == scanned_state_all(old(self).entries@[i], artifact_symbols.deep_view()),
    {
        let ghost gs = artifact_symbols.deep_view();
        let n = artifact_symbols.len();
        let mut k: usize = 0;
        proof {
            assert forall|j: int| 0 <= j < self.entries@.len() implies #[trigger] self.entries@[j]
                == scanned_state_all(old(self).entries@[j], gs.take(0)) by {
                assert(!any_contains(gs.take(0), self.entries@[j].name@));
                assert(!any_contains(gs.take(0), wrap_name(self.entries@[j].name@)));
                assert(self.entries@[j] =~= scanned_state_all(old(self).entries@[j], gs.take(0)));
            }
        }
        while k < n
            invariant
                n == artifact_symbols.len(),
                gs == artifact_symbols.deep_view(),
                old(self).wf(),
                self.wf(),
                self.entries@.len() == old(self).entries@.len(),
                k <= n,
                forall|j: int|
                    0 <= j < self.entries@.len() ==> #[trigger] self.entries@[j]
                        == scanned_state_all(old(self).entries@[j], gs.take(k as int)),
            decreases n - k,
        {
            let ghost mid = self.entries@;
            self.record_symbols(&artifact_symbols[k]);
            proof {
                assert(gs[k as int] == artifact_symbols@[k as int].deep_view());
                assert forall|j: int| 0 <= j < self.entries@.len() implies #[trigger] self
                    .entries@[j] == scanned_state_all(old(self).entries@[j], gs.take(k + 1)) by {
                    lemma_any_contains_take_step(gs, k as int, old(self).entries@[j].name@);
                    lemma_any_contains_take_step(
                        gs,
                        k as int,
                        wrap_name(old(self).entries@[j].name@),
                    );
                    assert(self.entries@[j] == scanned_state(mid[j], gs[k as int]));
                    assert(self.entries@[j] =~= scanned_state_all(
                        old(self).entries@[j],
                        gs.take(k + 1),
                    ));
                }
            }
            k += 1;
        }
        proof {
            assert(gs.take(n as int) =~= gs);
        }
    }
}

/// Whether any of the symbol lists contains `x`.
pub open spec fn any_contains(groups: Seq<Seq<Seq<char>>>, x: Seq<char>) -> bool {
    exists|k: int| 0 <= k < groups.len() && (#[trigger] groups[k]).contains(x)
}

/// The record for one requested symbol after the symbol lists of all artifacts
/// have been applied, in some order.
pub open spec fn scanned_state_all(e: SymbolState, groups: Seq<Seq<Seq<char>>>) -> SymbolState {
    SymbolState {
        wrapper_present: e.wrapper_present || any_contains(groups, wrap_name(e.name@)),
        original_referenced: e.original_referenced || any_contains(groups, e.name@),
        ..e
    }
}

/// Membership in any list of a prefix extended by one list.
proof fn lemma_any_contains_take_step(gs: Seq<Seq<Seq<char>>>, j: int, x: Seq<char>)
    requires
        0 <= j < gs.len(),
    ensures
        any_contains(gs.take(j + 1), x) == (any_contains(gs.take(j), x) || gs[j].contains(x)),
{
    assert(gs.take(j + 1) =~= gs.take(j).push(gs[j]));
    if any_contains(gs.take(j + 1), x) {
        let k = choose|k: int| 0 <= k < gs.take(j + 1).len() && (#[trigger] gs.take(j + 1)[k]).contains(x);
        if k < j {
            assert(gs.take(j)[k].contains(x));
        }
    }
    if any_contains(gs.take(j), x) {
        let k = choose|k: int| 0 <= k < gs.take(j).len() && (#[trigger] gs.take(j)[k]).contains(x);
        assert(gs.take(j + 1)[k].contains(x));
    }
    if gs[j].contains(x) {
        assert(gs.take(j + 1)[j].contains(x));
    }
}

/// What the resolution policy prescribes for one requested symbol once every
/// artifact has been scanned.
#[derive(Clone, Copy, Debug, PartialEq, Eq, Structural)]
pub enum WrapAction {
    /// An explicit wrapper implementation already exists; nothing to do.
    AlreadyWrapped,
    /// The original is referenced and no wrapper exists; synthesize a stub.
    Synthesize,
    /// Neither wrapper nor original was observed; warn that the request is unused.
    WarnUnused,
}

/// The decision table of the resolution policy.
pub open spec fn decision(wrapper_present: bool, original_referenced: bool) -> WrapAction {
    if wrapper_present {
        WrapAction::AlreadyWrapped
    } else if original_referenced {
        WrapAction::Synthesize
    } else {
        WrapAction::WarnUnused
    }
}

/// Apply the decision policy to one record's final flags. A present wrapper
/// rules synthesis out whatever the other flag says; synthesis happens exactly
/// when no wrapper is present and the original is referenced.
pub fn decide(wrapper_present: bool, original_referenced: bool) -> (a: WrapAction)
    ensures
        a == decision(wrapper_present, original_referenced),
        wrapper_present ==> a == WrapAction::AlreadyWrapped,
        (a == WrapAction::Synthesize) == (!wrapper_present && original_referenced),
        (a == WrapAction::WarnUnused) == (!wrapper_present && !original_referenced),
{
    if wrapper_present {
        WrapAction::AlreadyWrapped
    } else if original_referenced {
        WrapAction::Synthesize
    } else {
        WrapAction::WarnUnused
    }
}

/// The names whose records demand synthesis, in table order.
pub open spec fn synthesis_names(entries: Seq<SymbolState>) -> Seq<Seq<char>>
    decreases entries.len(),
{
    if entries.len() == 0 {
        Seq::empty()
    } else {
        let rest = synthesis_names(entries.drop_last());
        let e = entries.last();
        if decision(e.wrapper_present, e.original_referenced) == WrapAction::Synthesize {
            rest.push(e.name@)
        } else {
            rest
        }
    }
}

/// The names whose records draw the unused-symbol warning, in table order.
pub open spec fn unused_names(entries: Seq<SymbolState>) -> Seq<Seq<char>>
    decreases entries.len(),
{
    if entries.len() == 0 {
        Seq::empty()
    } else {
        let rest = unused_names(entries.drop_last());
        let e = entries.last();
        if decision(e.wrapper_present, e.original_referenced) == WrapAction::WarnUnused {
            rest.push(e.name@)
        } else {
            rest
        }
    }
}

/// The symbols whose stubs must be synthesized: those whose record says the
/// original is referenced but no wrapper implementation is present.
pub fn synthesis_symbols(t: &ResolutionTable) -> (syms: Vec<String>)
    ensures
        syms.deep_view() == synthesis_names(t.entries@),
{
    let n = t.entries.len();
    let mut syms: Vec<String> = Vec::new();
    let mut i: usize = 0;
    proof {
        assert(syms.deep_view() =~= Seq::<Seq<char>>::empty());
    }
    while i < n
        invariant
            n == t.entries.len(),
            i <= n,
            syms.deep_view() == synthesis_names(t.entries@.take(i as int)),
        decreases n - i,
    {
        proof {
            assert(t.entries@.take(i + 1 as int).drop_last() =~= t.entries@.take(i as int));
            assert(t.entries@.take(i + 1 as int).last() == t.entries@[i as int]);
        }
        let e = &t.entries[i];
        let a = decide(e.wrapper_present, e.original_referenced);
        if a == WrapAction::Synthesize {
            let ghost pre = syms.deep_view();
            syms.push(e.name.clone());
            proof {
                assert(syms.deep_view() =~= pre.push(e.name@));
            }
        }
        i += 1;
    }
    proof {
        assert(t.entries@.take(n as int) =~= t.entries@);
    }
    syms
}

/// The symbols to warn about: requested, but neither a wrapper implementation
/// nor a reference to the original was observed anywhere.
pub fn unused_symbols(t: &ResolutionTable) -> (syms: Vec<String>)
    ensures
        syms.deep_view() == unused_names(t.entries@),
{
    let n = t.entries.len();
    let mut syms: Vec<String> = Vec::new();
    let mut i: usize = 0;
    proof {
        assert(syms.deep_view() =~= Seq::<Seq<char>>::empty());
    }
    while i < n
        invariant
            n == t.entries.len(),
            i <= n,
            syms.deep_view() == unused_names(t.entries@.take(i as int)),
        decreases n - i,
    {
        proof {
            assert(t.entries@.take(i + 1 as int).drop_last() =~= t.entries@.take(i as int));
            assert(t.entries@.take(i + 1 as int).last() == t.entries@[i as int]);
        }
        let e = &t.entries[i];
        let a = decide(e.wrapper_present, e.original_referenced);
        if a == WrapAction::WarnUnused {
            let ghost pre = syms.deep_view();
            syms.push(e.name.clone());
            proof {
                assert(syms.deep_view() =~= pre.push(e.name@));
            }
        }
        i += 1;
    }
    proof {
        assert(t.entries@.take(n as int) =~= t.entries@);
    }
    syms
}

/// Resolve every requested wrap symbol against the scanned artifacts: build
/// the deduplicated table, all flags false, then apply every artifact's symbol
/// list. Afterwards a flag is set exactly when some artifact reports its name.
pub fn resolve_requests(wrap_symbols: &Vec<String>, artifact_symbols: &Vec<Vec<String>>) -> (t:
    ResolutionTable)
    ensures
        t.wf(),
        t.names() == dedup_names(wrap_symbols.deep_view()),
        forall|i: int|
            0 <= i < t.entries@.len() ==> {
                &&& (#[trigger] t.entries@[i]).wrapper_present == any_contains(
                    artifact_symbols.deep_view(),
                    wrap_name(t.entries@[i].name@),
                )
                &&& t.entries@[i].original_referenced == any_contains(
                    artifact_symbols.deep_view(),
                    t.entries@[i].name@,
                )
            },
{
    let mut t = new_table(wrap_symbols);
    let ghost t0 = t;
    t.record_artifacts(artifact_symbols);
    proof {
        assert(t.names() =~= t0.names());
    }
    t
}

/// Flags are monotonic: scanning more symbols never clears a flag that was
/// already set, it can only set flags that were still false.
pub proof fn lemma_flags_monotonic(e: SymbolState, syms: Seq<Seq<char>>)
    ensures
        e.wrapper_present ==> scanned_state(e, syms).wrapper_present,
        e.original_referenced ==> scanned_state(e, syms).original_referenced,
{
}

/// Scanning the same collection of symbol names in any order yields the same
/// final flags: the monotonic accumulation depends only on which names occur,
/// never on where.
pub proof fn lemma_scan_order_independent(
    init: bool,
    name: Seq<char>,
    syms1: Seq<Seq<char>>,
    syms2: Seq<Seq<char>>,
)
    requires
        syms1.to_multiset() == syms2.to_multiset(),
    ensures
        referenced_after(init, name, syms1) == referenced_after(init, name, syms2),
        present_after(init, name, syms1) == present_after(init, name, syms2),
{
    vstd::seq_lib::to_multiset_contains(syms1, name);
    vstd::seq_lib::to_multiset_contains(syms2, name);
    vstd::seq_lib::to_multiset_contains(syms1, wrap_name(name));
    vstd::seq_lib::to_multiset_contains(syms2, wrap_name(name));
}

/// A record scanned over the same multiset of symbol names, in any order, ends
/// in the same state.
pub proof fn lemma_scanned_state_order_independent(
    e: SymbolState,
    syms1: Seq<Seq<char>>,
    syms2: Seq<Seq<char>>,
)
    requires
        syms1.to_multiset() == syms2.to_multiset(),
    ensures
        scanned_state(e, syms1) == scanned_state(e, syms2),
{
    lemma_scan_order_independent(e.original_referenced, e.name@, syms1, syms2);
    lemma_scan_order_independent(e.wrapper_present, e.name@, syms1, syms2);
    assert(scanned_state(e, syms1) =~= scanned_state(e, syms2));
}

/// Membership in any group depends only on which groups there are.
proof fn lemma_any_contains_permutation(
    gs1: Seq<Seq<Seq<char>>>,
    gs2: Seq<Seq<Seq<char>>>,
    x: Seq<char>,
)
    requires
        gs1.to_multiset() == gs2.to_multiset(),
    ensures
        any_contains(gs1, x) == any_contains(gs2, x),
{
    if any_contains(gs1, x) {
        let k = choose|k: int| 0 <= k < gs1.len() && (#[trigger] gs1[k]).contains(x);
        vstd::seq_lib::to_multiset_contains(gs1, gs1[k]);
        vstd::seq_lib::to_multiset_contains(gs2, gs1[k]);
        let j = choose|j: int| 0 <= j < gs2.len() && gs2[j] == gs1[k];
        assert(gs2[j].contains(x));
    }
    if any_contains(gs2, x) {
        let k = choose|k: int| 0 <= k < gs2.len() && (#[trigger] gs2[k]).contains(x);
        vstd::seq_lib::to_multiset_contains(gs2, gs2[k]);
        vstd::seq_lib::to_multiset_contains(gs1, gs2[k]);
        let j = choose|j: int| 0 <= j < gs1.len() && gs1[j] == gs2[k];
        assert(gs1[j].contains(x));
    }
}

/// Scanning the same set of artifacts in any permutation leaves every record
/// with identical `wrapper_present` and `original_referenced` flags.
pub proof fn lemma_artifact_order_independent(
    e: SymbolState,
    gs1: Seq<Seq<Seq<char>>>,
    gs2: Seq<Seq<Seq<char>>>,
)
    requires
        gs1.to_multiset() == gs2.to_multiset(),
    ensures
        scanned_state_all(e, gs1) == scanned_state_all(e, gs2),
{
    lemma_any_contains_permutation(gs1, gs2, e.name@);
    lemma_any_contains_permutation(gs1, gs2, wrap_name(e.name@));
    assert(scanned_state_all(e, gs1) =~= scanned_state_all(e, gs2));
}

/// Every name in the synthesis list names some record whose flags demand
/// synthesis.
proof fn lemma_synthesis_names_from_entries(entries: Seq<SymbolState>, x: Seq<char>)
    requires
        synthesis_names(entries).contains(x),
    ensures
        exists|i: int|
            0 <= i < entries.len() && (#[trigger] entries[i]).name@ == x && decision(
                entries[i].wrapper_present,
                entries[i].original_referenced,
            ) == WrapAction::Synthesize,
    decreases entries.len(),
{
    let rest = synthesis_names(entries.drop_last());
    let e = entries.last();
    if decision(e.wrapper_present, e.original_referenced) == WrapAction::Synthesize {
        let k = choose|k: int|
            #![trigger synthesis_names(entries)[k]]
            0 <= k < synthesis_names(entries).len() && synthesis_names(entries)[k] == x;
        if k < rest.len() {
            assert(rest[k] == x);
            lemma_synthesis_names_from_entries(entries.drop_last(), x);
            let i = choose|i: int|
                0 <= i < entries.drop_last().len() && (#[trigger] entries.drop_last()[i]).name@
                    == x && decision(
                    entries.drop_last()[i].wrapper_present,
                    entries.drop_last()[i].original_referenced,
                ) == WrapAction::Synthesize;
            assert(entries[i] == entries.drop_last()[i]);
        } else {
            assert(entries[entries.len() - 1].name@ == x);
        }
    } else {
        lemma_synthesis_names_from_entries(entries.drop_last(), x);
        let i = choose|i: int|
            0 <= i < entries.drop_last().len() && (#[trigger] entries.drop_last()[i]).name@ == x
                && decision(
                entries.drop_last()[i].wrapper_present,
                entries.drop_last()[i].original_referenced,
            ) == WrapAction::Synthesize;
        assert(entries[i] == entries.drop_last()[i]);
    }
}

/// A requested symbol whose wrapper implementation is already present is never
/// synthesized, whether or not its original is referenced.
pub proof fn lemma_present_wrapper_not_synthesized(entries: Seq<SymbolState>, i: int)
    requires
        forall|j: int, k: int|
            0 <= j < k < entries.len() ==> (#[trigger] entries[j]).name@ != (
            #[trigger] entries[k]).name@,
        0 <= i < entries.len(),
        entries[i].wrapper_present,
    ensures
        !synthesis_names(entries).contains(entries[i].name@),
{
    if synthesis_names(entries).contains(entries[i].name@) {
        lemma_synthesis_names_from_entries(entries, entries[i].name@);
        let k = choose|k: int|
            0 <= k < entries.len() && (#[trigger] entries[k]).name@ == entries[i].name@
                && decision(entries[k].wrapper_present, entries[k].original_referenced)
                == WrapAction::Synthesize;
        if k < i {
            assert(entries[k].name@ != entries[i].name@);
        }
        if i < k {
            assert(entries[i].name@ != entries[k].name@);
        }
        assert(k == i);
        assert(false);
    }
}

/// With pairwise-distinct record names, each symbol needing synthesis appears
/// exactly once in the synthesis list: one `.c`/`.o` pair per symbol.
pub proof fn lemma_synthesis_names_distinct(entries: Seq<SymbolState>)
    requires
        forall|i: int, j: int|
            0 <= i < j < entries.len() ==> (#[trigger] entries[i]).name@ != (
            #[trigger] entries[j]).name@,
    ensures
        forall|i: int, j: int|
            0 <= i < j < synthesis_names(entries).len() ==> synthesis_names(entries)[i]
                != synthesis_names(entries)[j],
    decreases entries.len(),
{
    if entries.len() > 0 {
        let prior = entries.drop_last();
        lemma_synthesis_names_distinct(prior);
        let rest = synthesis_names(prior);
        let e = entries.last();
        if decision(e.wrapper_present, e.original_referenced) == WrapAction::Synthesize {
            if rest.contains(e.name@) {
                lemma_synthesis_names_from_entries(prior, e.name@);
                let i = choose|i: int|
                    0 <= i < prior.len() && (#[trigger] prior[i]).name@ == e.name@ && decision(
                        prior[i].wrapper_present,
                        prior[i].original_referenced,
                    ) == WrapAction::Synthesize;
                assert(entries[i].name@ == entries[entries.len() - 1].name@);
                assert(false);
            }
            assert forall|i: int, j: int|
                0 <= i < j < synthesis_names(entries).len() implies synthesis_names(entries)[i]
                != synthesis_names(entries)[j] by {
                if j < rest.len() {
                    assert(synthesis_names(entries)[i] == rest[i]);
                    assert(synthesis_names(entries)[j] == rest[j]);
                } else {
                    assert(synthesis_names(entries)[j] == e.name@);
                    assert(synthesis_names(entries)[i] == rest[i]);
                    if rest[i] == e.name@ {
                        assert(rest.contains(e.name@));
                    }
                }
            }
        }
    }
}

} // verus!
