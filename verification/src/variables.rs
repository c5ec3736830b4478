use crate::text::{starts_with, str_eq};
use vstd::prelude::*;

verus! {

/// A variable of a compiled pattern: the scope it lives in and its index there.
#[derive(Clone, Copy, Debug, PartialEq, Eq, Structural)]
pub struct Variable {
    pub scope: usize,
    pub index: usize,
}

impl Variable {
    pub fn new(scope: usize, index: usize) -> (v: Self)
        ensures
            v.scope == scope,
            v.index == index,
    {
        Variable { scope, index }
    }
}

/// A span of bytes in a pattern file.
#[derive(Clone, Copy, Debug, PartialEq, Eq, Structural)]
pub struct ByteRange {
    pub start: usize,
    pub end: usize,
}

/// The scope that holds the global variables.
pub const GLOBAL_VARS_SCOPE_INDEX: usize = 0;

/// The name of the pattern file that is compiled when no other file is named.
pub open spec fn default_file_name() -> Seq<char> {
    seq!['P', 'l', 'a', 'y', 'g', 'r', 'o', 'u', 'n', 'd', 'P', 'a', 't', 't', 'e', 'r', 'n']
}

fn default_file_name_string() -> (s: String)
    ensures
        s@ == default_file_name(),
{
    let name = "PlaygroundPattern";
    proof {
        reveal_strlit("PlaygroundPattern");
    }
    let s = name.to_owned();
    assert(s@ =~= default_file_name());
    s
}

/// `a` comes before `b`: by start, then by end.
pub open spec fn range_lt(a: ByteRange, b: ByteRange) -> bool {
    a.start < b.start || (a.start == b.start && a.end < b.end)
}

/// The ranges are in increasing order, each listed once.
pub open spec fn sorted_ranges(s: Seq<ByteRange>) -> bool {
    forall|i: int, j: int| 0 <= i < j < s.len() ==> range_lt(#[trigger] s[i], #[trigger] s[j])
}

fn range_lt_exec(a: ByteRange, b: ByteRange) -> (r: bool)
    ensures
        r == range_lt(a, b),
{
    a.start < b.start || (a.start == b.start && a.end < b.end)
}

/// Where a variable occurs: its name, the file that declares it, and the
/// byte ranges of its occurrences, in increasing order (by start, then end),
/// each listed once.
#[derive(Clone, Debug)]
pub struct VariableSourceLocations {
    pub name: String,
    pub file: String,
    pub locations: Vec<ByteRange>,
}

/// What a variable's record says: name, file and set of occurrences.
pub struct LocationsView {
    pub name: Seq<char>,
    pub file: Seq<char>,
    pub locations: Set<ByteRange>,
}

impl VariableSourceLocations {
    /// The record's name, file and set of occurrences; as the occurrences are
    /// kept sorted (`wf`), the set fixes their order.
    pub open spec fn record(&self) -> LocationsView {
        LocationsView { name: self.name@, file: self.file@, locations: self.locations@.to_set() }
    }

    pub open spec fn wf(&self) -> bool {
        sorted_ranges(self.locations@)
    }

    /// Records one more occurrence, in its place in the order.
    pub fn add_location(&mut self, range: ByteRange)
        requires
            old(self).wf(),
        ensures
            final(self).wf(),
            final(self).record() == (LocationsView {
                locations: old(self).record().locations.insert(range),
                ..old(self).record()
            }),
    {
        let mut i: usize = 0;
        while i < self.locations.len() && range_lt_exec(self.locations[i], range)
            invariant
                *self == *old(self),
                self.wf(),
                0 <= i <= self.locations@.len(),
                forall|j: int| 0 <= j < i ==> range_lt(#[trigger] self.locations@[j], range),
            decreases self.locations@.len() - i,
        {
            i = i + 1;
        }
        if i < self.locations.len() && self.locations[i] == range {
            assert(self.locations@.contains(range)) by {
                assert(self.locations@[i as int] == range);
            }
            assert(self.locations@.to_set().insert(range) =~= self.locations@.to_set());
            return;
        }
        let ghost before = self.locations@;
        proof {
            assert forall|j: int| i <= j < before.len() implies range_lt(range, #[trigger] before[j]) by {
                assert(!range_lt(before[i as int], range));
                assert(before[i as int] != range);
                if j > i {
                    assert(range_lt(before[i as int], before[j]));
                }
            }
        }
        self.locations.insert(i, range);
        assert(self.locations@ == before.insert(i as int, range));
        assert forall|x: ByteRange| #[trigger] self.locations@.contains(x) <==> before.contains(x)
            || x == range by {
            if self.locations@.contains(x) {
                let j = choose|j: int| 0 <= j < self.locations@.len() && self.locations@[j] == x;
                if j < i {
                    assert(before[j] == x);
                } else if j > i {
                    assert(before[j - 1] == x);
                }
            }
            if before.contains(x) {
                let j = choose|j: int| 0 <= j < before.len() && before[j] == x;
                if j < i {
                    assert(self.locations@[j] == x);
                } else {
                    assert(self.locations@[j + 1] == x);
                }
            }
            if x == range {
                assert(self.locations@[i as int] == x);
            }
        }
        assert(self.locations@.to_set() =~= before.to_set().insert(range));
        assert(sorted_ranges(self.locations@)) by {
            let t = self.locations@;
            assert forall|a: int, b: int| 0 <= a < b < t.len() implies range_lt(#[trigger] t[a], #[trigger] t[b]) by {
                if b < i {
                    assert(t[a] == before[a] && t[b] == before[b]);
                } else if b == i {
                    assert(t[a] == before[a]);
                } else if a < i {
                    assert(t[a] == before[a] && t[b] == before[b - 1]);
                    assert(range_lt(before[a], range));
                    assert(range_lt(range, before[b - 1]));
                } else if a == i {
                    assert(t[b] == before[b - 1]);
                } else {
                    assert(t[a] == before[a - 1] && t[b] == before[b - 1]);
                }
            }
        }
    }
}

/// A map from names to indices, kept as a list of entries with distinct names.
#[derive(Clone, Debug)]
pub struct NameMap {
    entries: Vec<(String, usize)>,
}

/// The map that a list of entries with distinct names stands for.
pub open spec fn entries_map(s: Seq<(String, usize)>) -> Map<Seq<char>, usize>
    decreases s.len(),
{
    if s.len() == 0 {
        Map::empty()
    } else {
        entries_map(s.drop_last()).insert(s.last().0@, s.last().1)
    }
}

pub open spec fn distinct_names(s: Seq<(String, usize)>) -> bool {
    forall|i: int, j: int| 0 <= i < j < s.len() ==> (#[trigger] s[i]).0@ != (#[trigger] s[j]).0@
}

proof fn lemma_entries_map(s: Seq<(String, usize)>)
    requires
        distinct_names(s),
    ensures
        forall|k: Seq<char>|
            #[trigger] entries_map(s).contains_key(k) <==> exists|i: int|
                0 <= i < s.len() && (#[trigger] s[i]).0@ == k,
        forall|i: int| 0 <= i < s.len() ==> entries_map(s)[(#[trigger] s[i]).0@] == s[i].1,
    decreases s.len(),
{
    if s.len() > 0 {
        let r = s.drop_last();
        assert(distinct_names(r)) by {
            assert forall|i: int, j: int| 0 <= i < j < r.len() implies (#[trigger] r[i]).0@ != (
            #[trigger] r[j]).0@ by {
                assert(r[i] == s[i] && r[j] == s[j]);
            }
        }
        lemma_entries_map(r);
        assert forall|k: Seq<char>| #[trigger] entries_map(s).contains_key(k) <==> exists|i: int|
            0 <= i < s.len() && (#[trigger] s[i]).0@ == k by {
            if entries_map(s).contains_key(k) && k != s.last().0@ {
                assert(entries_map(r).contains_key(k));
                let i = choose|i: int| 0 <= i < r.len() && (#[trigger] r[i]).0@ == k;
                assert(s[i] == r[i]);
            }
            if exists|i: int| 0 <= i < s.len() && (#[trigger] s[i]).0@ == k {
                let i = choose|i: int| 0 <= i < s.len() && (#[trigger] s[i]).0@ == k;
                if i < s.len() - 1 {
                    assert(s[i] == r[i]);
                }
            }
        }
        assert forall|i: int| 0 <= i < s.len() implies entries_map(s)[(#[trigger] s[i]).0@] == s[i].1 by {
            if i < s.len() - 1 {
                assert(s[i] == r[i]);
                assert(s[i].0@ != s[s.len() - 1].0@);
            }
        }
    }
}

impl View for NameMap {
    type V = Map<Seq<char>, usize>;

    closed spec fn view(&self) -> Map<Seq<char>, usize> {
        entries_map(self.entries@)
    }
}

impl NameMap {
    pub closed spec fn wf(&self) -> bool {
        distinct_names(self.entries@)
    }

    pub fn new() -> (m: Self)
        ensures
            m.wf(),
            m@ == Map::<Seq<char>, usize>::empty(),
    {
        NameMap { entries: Vec::new() }
    }

    /// The index that `name` maps to, if any.
    pub fn get(&self, name: &str) -> (r: Option<usize>)
        requires
            self.wf(),
        ensures
            r == (if self@.contains_key(name@) {
                Some(self@[name@])
            } else {
                None
            }),
    {
        proof {
            lemma_entries_map(self.entries@);
        }
        let mut i: usize = 0;
        while i < self.entries.len()
            invariant
                self.wf(),
                0 <= i <= self.entries@.len(),
                forall|j: int| 0 <= j < i ==> (#[trigger] self.entries@[j]).0@ != name@,
            decreases self.entries@.len() - i,
        {
            if str_eq(self.entries[i].0.as_str(), name) {
                proof {
                    lemma_entries_map(self.entries@);
                    assert(self.entries@[i as int].0@ == name@);
                }
                return Some(self.entries[i].1);
            }
            i = i + 1;
        }
        None
    }

    /// Maps `name` to `value`; `name` must not be mapped yet.
    pub fn insert(&mut self, name: String, value: usize)
        requires
            old(self).wf(),
            !old(self)@.contains_key(name@),
        ensures
            final(self).wf(),
            final(self)@ == old(self)@.insert(name@, value),
    {
        proof {
            lemma_entries_map(self.entries@);
        }
        let ghost before = self.entries@;
        self.entries.push((name, value));
        assert(self.entries@.drop_last() == before);
        assert(distinct_names(self.entries@)) by {
            assert forall|i: int, j: int| 0 <= i < j < self.entries@.len() implies (
            #[trigger] self.entries@[i]).0@ != (#[trigger] self.entries@[j]).0@ by {
                if j == self.entries@.len() - 1 {
                    assert(self.entries@[i] == before[i]);
                } else {
                    assert(self.entries@[i] == before[i] && self.entries@[j] == before[j]);
                }
            }
        }
    }
}

/// A variable occurrence in a pattern file.
#[derive(Clone, Debug)]
pub struct FileLocation {
    pub file_name: String,
    pub range: ByteRange,
}

/// The variable scopes of a compilation: local names of the current
/// definition, every scope's variables, the global names, and the current scope.
#[derive(Clone, Debug)]
pub struct VariableScopes {
    pub vars: NameMap,
    pub vars_array: Vec<Vec<VariableSourceLocations>>,
    pub global_vars: NameMap,
    pub scope_index: usize,
    pub file: String,
}

/// The records of every scope, as views.
pub open spec fn scopes_view(a: Seq<Vec<VariableSourceLocations>>) -> Seq<Seq<LocationsView>> {
    a.map_values(|s: Vec<VariableSourceLocations>| s@.map_values(|l: VariableSourceLocations| l.record()))
}

/// Every record of every scope lists its ranges in order, each once.
pub open spec fn records_wf(a: Seq<Vec<VariableSourceLocations>>) -> bool {
    forall|s: int, i: int| 0 <= s < a.len() && 0 <= i < a[s]@.len() ==> (#[trigger] a[s]@[i]).wf()
}

impl VariableScopes {
    /// Both name maps are well formed and every record lists its ranges in
    /// order, each once.
    pub open spec fn wf(&self) -> bool {
        &&& self.vars.wf()
        &&& self.global_vars.wf()
        &&& records_wf(self.vars_array@)
    }
}

/// The name is spelled as a global variable: `$GLOBAL_...` or `^GLOBAL_...`.
pub open spec fn is_global_name(name: Seq<char>) -> bool {
    let tail = seq!['G', 'L', 'O', 'B', 'A', 'L', '_'];
    name.len() >= 8 && (name[0] == '$' || name[0] == '^') && name.subrange(1, 8) == tail
}

/// The records after adding `range` to record `i` of scope `s`.
pub open spec fn with_location(
    a: Seq<Seq<LocationsView>>,
    s: int,
    i: int,
    range: ByteRange,
) -> Seq<Seq<LocationsView>> {
    a.update(
        s,
        a[s].update(i, LocationsView { locations: a[s][i].locations.insert(range), ..a[s][i] }),
    )
}

/// The records after appending `l` to scope `s`.
pub open spec fn with_record(a: Seq<Seq<LocationsView>>, s: int, l: LocationsView) -> Seq<
    Seq<LocationsView>,
> {
    a.update(s, a[s].push(l))
}

/// What the variable scopes hold: local names, the records of every scope,
/// global names, the current scope and the pattern file being compiled.
pub struct ScopesState {
    pub vars: Map<Seq<char>, usize>,
    pub scopes: Seq<Seq<LocationsView>>,
    pub globals: Map<Seq<char>, usize>,
    pub scope_index: usize,
    pub file: Seq<char>,
}

impl VariableScopes {
    pub open spec fn state(&self) -> ScopesState {
        ScopesState {
            vars: self.vars@,
            scopes: scopes_view(self.vars_array@),
            globals: self.global_vars@,
            scope_index: self.scope_index,
            file: self.file@,
        }
    }
}

/// Registration does not index past the end of a scope.
pub open spec fn can_register(st: ScopesState, name: Seq<char>, has_location: bool) -> bool {
    let scopes = st.scopes;
    if st.vars.contains_key(name) {
        has_location ==> st.scope_index < scopes.len() && st.vars[name]
            < scopes[st.scope_index as int].len()
    } else if st.globals.contains_key(name) {
        has_location ==> GLOBAL_VARS_SCOPE_INDEX < scopes.len() && st.globals[name]
            < scopes[GLOBAL_VARS_SCOPE_INDEX as int].len()
    } else if is_global_name(name) {
        GLOBAL_VARS_SCOPE_INDEX < scopes.len()
    } else {
        st.scope_index < scopes.len()
    }
}

/// What registering `name` (seen at `location`, if given) does: the variable
/// it resolves to, and the scopes afterwards.
/// A local name resolves to its index in the current scope; a global name to
/// its index in the global scope (an occurrence is recorded for globals only
/// in the default pattern file); a new name spelled as a global is added to
/// the global scope and the global names; any other new name gets a fresh
/// record in the current scope (and is not added to the local names).
pub open spec fn registered(
    st: ScopesState,
    name: Seq<char>,
    location: Option<(Seq<char>, ByteRange)>,
) -> (Variable, ScopesState) {
    let scopes = st.scopes;
    let g = GLOBAL_VARS_SCOPE_INDEX as int;
    if st.vars.contains_key(name) {
        let i = st.vars[name];
        (
            Variable { scope: st.scope_index, index: i },
            ScopesState {
                scopes: match location {
                    Some((_, range)) => with_location(scopes, st.scope_index as int, i as int, range),
                    None => scopes,
                },
                ..st
            },
        )
    } else if st.globals.contains_key(name) {
        let i = st.globals[name];
        (
            Variable { scope: GLOBAL_VARS_SCOPE_INDEX, index: i },
            ScopesState {
                scopes: match location {
                    Some((file, range)) => if file == default_file_name() {
                        with_location(scopes, g, i as int, range)
                    } else {
                        scopes
                    },
                    None => scopes,
                },
                ..st
            },
        )
    } else if is_global_name(name) {
        let index = scopes[g].len() as usize;
        let record = match location {
            Some((file, range)) => LocationsView {
                name,
                file,
                locations: Set::empty().insert(range),
            },
            None => LocationsView { name, file: default_file_name(), locations: Set::empty() },
        };
        (
            Variable { scope: GLOBAL_VARS_SCOPE_INDEX, index },
            ScopesState {
                scopes: with_record(scopes, g, record),
                globals: st.globals.insert(name, index),
                ..st
            },
        )
    } else {
        let s = st.scope_index as int;
        let index = scopes[s].len() as usize;
        (
            Variable { scope: st.scope_index, index },
            ScopesState {
                scopes: with_record(
                    scopes,
                    s,
                    LocationsView { name, file: default_file_name(), locations: Set::empty() },
                ),
                ..st
            },
        )
    }
}

proof fn lemma_global_prefix(name: Seq<char>, c: char)
    ensures
        (name.len() >= 8 && name.take(8) == seq![c, 'G', 'L', 'O', 'B', 'A', 'L', '_']) <==> (
        name.len() >= 8 && name[0] == c && name.subrange(1, 8) == seq![
            'G',
            'L',
            'O',
            'B',
            'A',
            'L',
            '_',
        ]),
{
    let lit = seq![c, 'G', 'L', 'O', 'B', 'A', 'L', '_'];
    let tail = seq!['G', 'L', 'O', 'B', 'A', 'L', '_'];
    if name.len() >= 8 {
        if name.take(8) == lit {
            assert(name[0] == name.take(8)[0]);
            assert forall|j: int| 0 <= j < 7 implies name.subrange(1, 8)[j] == tail[j] by {
                assert(name.subrange(1, 8)[j] == name.take(8)[j + 1]);
            }
            assert(name.subrange(1, 8) =~= tail);
        }
        if name[0] == c && name.subrange(1, 8) == tail {
            assert forall|j: int| 0 <= j < 8 implies name.take(8)[j] == lit[j] by {
                if j > 0 {
                    assert(name.take(8)[j] == name.subrange(1, 8)[j - 1]);
                }
            }
            assert(name.take(8) =~= lit);
        }
    }
}

fn add_location_at(
    arr: &mut Vec<Vec<VariableSourceLocations>>,
    s: usize,
    i: usize,
    range: ByteRange,
)
    requires
        s < old(arr)@.len(),
        i < old(arr)@[s as int]@.len(),
        records_wf(old(arr)@),
    ensures
        records_wf(final(arr)@),
        scopes_view(final(arr)@) == with_location(scopes_view(old(arr)@), s as int, i as int, range),
{
    let ghost before = arr@;
    let mut scope = arr.remove(s);
    let mut rec = scope.remove(i);
    assert(rec == before[s as int]@[i as int]);
    rec.add_location(range);
    scope.insert(i, rec);
    arr.insert(s, scope);
    assert(arr@ =~= before.update(s as int, scope));
    assert(scope@ =~= before[s as int]@.update(i as int, rec));
    assert(records_wf(arr@)) by {
        assert forall|a: int, b: int| 0 <= a < arr@.len() && 0 <= b < arr@[a]@.len() implies (
        #[trigger] arr@[a]@[b]).wf() by {
            if a != s {
                assert(arr@[a] == before[a]);
            } else if b != i {
                assert(arr@[a]@[b] == before[a]@[b]);
            }
        }
    }
    assert(scopes_view(arr@) =~= with_location(scopes_view(before), s as int, i as int, range)) by {
        let lhs = scopes_view(arr@);
        let rhs = with_location(scopes_view(before), s as int, i as int, range);
        assert forall|a: int| 0 <= a < lhs.len() implies #[trigger] lhs[a] =~= rhs[a] by {
            if a == s {
                assert forall|b: int| 0 <= b < lhs[a].len() implies #[trigger] lhs[a][b] == rhs[a][b] by {
                    if b != i {
                        assert(arr@[a]@[b] == before[a]@[b]);
                    }
                }
            } else {
                assert(arr@[a] == before[a]);
            }
        }
    }
}

fn push_record(arr: &mut Vec<Vec<VariableSourceLocations>>, s: usize, rec: VariableSourceLocations)
    requires
        s < old(arr)@.len(),
        records_wf(old(arr)@),
        rec.wf(),
    ensures
        records_wf(final(arr)@),
        final(arr)@.len() == old(arr)@.len(),
        scopes_view(final(arr)@) == with_record(scopes_view(old(arr)@), s as int, rec.record()),
{
    let ghost before = arr@;
    let ghost r = rec;
    let mut scope = arr.remove(s);
    scope.push(rec);
    arr.insert(s, scope);
    assert(arr@ =~= before.update(s as int, scope));
    assert(records_wf(arr@)) by {
        assert forall|a: int, b: int| 0 <= a < arr@.len() && 0 <= b < arr@[a]@.len() implies (
        #[trigger] arr@[a]@[b]).wf() by {
            if a != s {
                assert(arr@[a] == before[a]);
            } else if b < before[a]@.len() {
                assert(arr@[a]@[b] == before[a]@[b]);
            }
        }
    }
    assert(scopes_view(arr@) =~= with_record(scopes_view(before), s as int, r.record())) by {
        let lhs = scopes_view(arr@);
        let rhs = with_record(scopes_view(before), s as int, r.record());
        assert forall|a: int| 0 <= a < lhs.len() implies #[trigger] lhs[a] =~= rhs[a] by {
            if a == s {
                assert forall|b: int| 0 <= b < lhs[a].len() implies #[trigger] lhs[a][b] == rhs[a][b] by {
                    if b < before[a]@.len() {
                        assert(arr@[a]@[b] == before[a]@[b]);
                    }
                }
            } else {
                assert(arr@[a] == before[a]);
            }
        }
    }
}

/// The file and range of an optional location.
pub open spec fn location_view(location: Option<FileLocation>) -> Option<(Seq<char>, ByteRange)> {
    match location {
        Some(l) => Some((l.file_name@, l.range)),
        None => None,
    }
}

/// Resolves `name` to a variable, registering it where it is new; see
/// `registered` for what happens in each case.
pub fn register_variable_optional_range(
    name: &str,
    location: Option<FileLocation>,
    context: &mut VariableScopes,
) -> (v: Variable)
    requires
        old(context).wf(),
        can_register(old(context).state(), name@, location is Some),
    ensures
        final(context).wf(),
        (v, final(context).state()) == registered(old(context).state(), name@, location_view(location)),
{
    let ghost ctx = *context;
    let scope_index = context.scope_index;
    if let Some(i) = context.vars.get(name) {
        if let Some(loc) = location {
            add_location_at(&mut context.vars_array, scope_index, i, loc.range);
        }
        return Variable::new(scope_index, i);
    }
    if let Some(i) = context.global_vars.get(name) {
        if let Some(loc) = location {
            let default_name = default_file_name_string();
            if str_eq(loc.file_name.as_str(), default_name.as_str()) {
                add_location_at(&mut context.vars_array, GLOBAL_VARS_SCOPE_INDEX, i, loc.range);
            }
        }
        return Variable::new(GLOBAL_VARS_SCOPE_INDEX, i);
    }
    let dollar = "$GLOBAL_";
    let caret = "^GLOBAL_";
    proof {
        reveal_strlit("$GLOBAL_");
        reveal_strlit("^GLOBAL_");
        assert(dollar@ =~= seq!['$', 'G', 'L', 'O', 'B', 'A', 'L', '_']);
        assert(caret@ =~= seq!['^', 'G', 'L', 'O', 'B', 'A', 'L', '_']);
        lemma_global_prefix(name@, '$');
        lemma_global_prefix(name@, '^');
    }
    if starts_with(name, dollar) || starts_with(name, caret) {
        let index = context.vars_array[GLOBAL_VARS_SCOPE_INDEX].len();
        context.global_vars.insert(name.to_owned(), index);
        let record = match location {
            Some(loc) => {
                let mut locations: Vec<ByteRange> = Vec::new();
                locations.push(loc.range);
                assert(locations@.to_set() =~= Set::<ByteRange>::empty().insert(loc.range)) by {
                    assert(locations@[0] == loc.range);
                }
                VariableSourceLocations { name: name.to_owned(), file: loc.file_name, locations }
            },
            None => {
                let locations: Vec<ByteRange> = Vec::new();
                assert(locations@.to_set() =~= Set::<ByteRange>::empty());
                VariableSourceLocations {
                    name: name.to_owned(),
                    file: default_file_name_string(),
                    locations,
                }
            },
        };
        push_record(&mut context.vars_array, GLOBAL_VARS_SCOPE_INDEX, record);
        Variable::new(GLOBAL_VARS_SCOPE_INDEX, index)
    } else {
        let index = context.vars_array[scope_index].len();
        let locations: Vec<ByteRange> = Vec::new();
        assert(locations@.to_set() =~= Set::<ByteRange>::empty());
        let record = VariableSourceLocations {
            name: name.to_owned(),
            file: default_file_name_string(),
            locations,
        };
        push_record(&mut context.vars_array, scope_index, record);
        Variable::new(scope_index, index)
    }
}

/// Resolves `name`, registering it where it is new, with no occurrence to record.
pub fn variable_from_name(name: &str, context: &mut VariableScopes) -> (v: Variable)
    requires
        old(context).wf(),
        can_register(old(context).state(), name@, false),
    ensures
        final(context).wf(),
        (v, final(context).state()) == registered(old(context).state(), name@, None),
{
    register_variable_optional_range(name, None, context)
}

/// Resolves `name`, recording its occurrence at `range` of the file being compiled.
pub fn register_variable(name: &str, range: ByteRange, context: &mut VariableScopes) -> (v: Variable)
    requires
        old(context).wf(),
        can_register(old(context).state(), name@, true),
    ensures
        final(context).wf(),
        (v, final(context).state()) == registered(
            old(context).state(),
            name@,
            Some((old(context).state().file, range)),
        ),
{
    let location = FileLocation { file_name: context.file.clone(), range };
    register_variable_optional_range(name, Some(location), context)
}

/// Registering each parameter in turn: the variables, named, and the scopes afterwards.
pub open spec fn registered_all(st: ScopesState, params: Seq<(Seq<char>, ByteRange)>) -> (
    Seq<(Seq<char>, Variable)>,
    ScopesState,
)
    decreases params.len(),
{
    if params.len() == 0 {
        (Seq::empty(), st)
    } else {
        let (vars, mid) = registered_all(st, params.drop_last());
        let (name, range) = params.last();
        let (v, end) = registered(mid, name, Some((mid.file, range)));
        (vars.push((name, v)), end)
    }
}

/// Registering each parameter in turn never indexes past the end of a scope.
pub open spec fn can_register_all(st: ScopesState, params: Seq<(Seq<char>, ByteRange)>) -> bool
    decreases params.len(),
{
    params.len() == 0 || (can_register_all(st, params.drop_last()) && can_register(
        registered_all(st, params.drop_last()).1,
        params.last().0,
        true,
    ))
}

/// The parameters as names and ranges.
pub open spec fn params_view(p: Seq<(String, ByteRange)>) -> Seq<(Seq<char>, ByteRange)> {
    p.map_values(|e: (String, ByteRange)| (e.0@, e.1))
}

/// The variables as names and variables.
pub open spec fn named_vars_view(p: Seq<(String, Variable)>) -> Seq<(Seq<char>, Variable)> {
    p.map_values(|e: (String, Variable)| (e.0@, e.1))
}

/// Registers each parameter at its range, in order.
pub fn get_variables(params: &[(String, ByteRange)], context: &mut VariableScopes) -> (r: Vec<
    (String, Variable),
>)
    requires
        old(context).wf(),
        can_register_all(old(context).state(), params_view(params@)),
    ensures
        final(context).wf(),
        (named_vars_view(r@), final(context).state()) == registered_all(
            old(context).state(),
            params_view(params@),
        ),
{
    let ghost start = context.state();
    let mut r: Vec<(String, Variable)> = Vec::new();
    let mut i: usize = 0;
    while i < params.len()
        invariant
            0 <= i <= params@.len(),
            context.wf(),
            can_register_all(start, params_view(params@)),
            (named_vars_view(r@), context.state()) == registered_all(
                start,
                params_view(params@).take(i as int),
            ),
        decreases params@.len() - i,
    {
        let ghost pv = params_view(params@);
        assert(pv.take(i + 1).drop_last() == pv.take(i as int));
        assert(pv.take(i + 1).last() == pv[i as int]);
        proof {
            lemma_can_register_prefix(start, pv, i + 1);
        }
        let v = register_variable(params[i].0.as_str(), params[i].1, context);
        let ghost before = r@;
        r.push((params[i].0.clone(), v));
        assert(named_vars_view(r@) =~= named_vars_view(before).push((pv[i as int].0, v)));
        i = i + 1;
    }
    assert(params_view(params@).take(params@.len() as int) == params_view(params@));
    r
}

proof fn lemma_can_register_prefix(st: ScopesState, params: Seq<(Seq<char>, ByteRange)>, n: int)
    requires
        can_register_all(st, params),
        0 < n <= params.len(),
    ensures
        can_register(
            registered_all(st, params.take(n - 1)).1,
            params[n - 1].0,
            true,
        ),
    decreases params.len(),
{
    if n == params.len() {
        assert(params.take(n - 1) == params.drop_last());
    } else {
        assert(params.drop_last().take(n - 1) == params.take(n - 1));
        lemma_can_register_prefix(st, params.drop_last(), n);
    }
}

/// Registering a name that is already local or global, or that is spelled as
/// a global, twice in a row resolves to the same variable both times.
pub proof fn lemma_register_twice_same_variable(
    st: ScopesState,
    name: Seq<char>,
    first: Option<(Seq<char>, ByteRange)>,
    second: Option<(Seq<char>, ByteRange)>,
)
    requires
        st.vars.contains_key(name) || st.globals.contains_key(name) || is_global_name(name),
        can_register(st, name, first is Some),
    ensures
        registered(registered(st, name, first).1, name, second).0 == registered(st, name, first).0,
{
}

/// Registering a local name with a location records the occurrence in the
/// name's record in the current scope, whatever file is being compiled: the
/// variable is the name's slot in the current scope, that record gains the
/// range, and nothing else changes.
pub proof fn lemma_local_occurrence_recorded_in_any_file(
    st: ScopesState,
    name: Seq<char>,
    file: Seq<char>,
    range: ByteRange,
)
    requires
        st.vars.contains_key(name),
        can_register(st, name, true),
    ensures
        ({
            let (v, after) = registered(st, name, Some((file, range)));
            let s = st.scope_index as int;
            let i = st.vars[name] as int;
            &&& v == Variable { scope: st.scope_index, index: st.vars[name] }
            &&& after.scopes.len() == st.scopes.len()
            &&& after.scopes[s].len() == st.scopes[s].len()
            &&& after.scopes[s][i].locations == st.scopes[s][i].locations.insert(range)
            &&& after.scopes[s][i].name == st.scopes[s][i].name
            &&& after.scopes[s][i].file == st.scopes[s][i].file
            &&& forall|t: int, j: int|
                0 <= t < st.scopes.len() && 0 <= j < st.scopes[t].len() && (t != s || j != i)
                    ==> #[trigger] after.scopes[t][j] == st.scopes[t][j]
            &&& after.vars == st.vars
            &&& after.globals == st.globals
            &&& after.scope_index == st.scope_index
            &&& after.file == st.file
        }),
{
    let s = st.scope_index as int;
    let i = st.vars[name] as int;
    let after = registered(st, name, Some((file, range))).1;
    assert forall|t: int, j: int|
        0 <= t < st.scopes.len() && 0 <= j < st.scopes[t].len() && (t != s || j != i)
            implies #[trigger] after.scopes[t][j] == st.scopes[t][j] by {
        if t == s {
            assert(after.scopes[t] == st.scopes[s].update(i, after.scopes[s][i]));
        }
    }
}

} // verus!
