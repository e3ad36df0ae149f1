//! The global variables of a program and their layout on the shared heap.

use crate::ident::Symbol;
use crate::types::{Linkage, Type};
use vstd::prelude::*;

verus! {

/// A handle to a global variable: its place in the table that declares it.
#[derive(Clone, Copy, Debug, PartialEq, Eq, Structural, Hash)]
pub struct GlobalVariable(pub u32);

impl GlobalVariable {
    /// The handle for place `index`.
    pub fn new(index: u32) -> (g: Self)
        ensures
            g == GlobalVariable(index),
    {
        GlobalVariable(index)
    }

    /// The place this handle stands for.
    pub fn index(&self) -> (i: u32)
        ensures
            i == self.0,
    {
        self.0
    }
}

/// One global variable of a program.
#[derive(Clone, Copy, Debug)]
pub struct GlobalEntry {
    /// The module that declares the variable.
    pub module: Symbol,
    /// The name of the variable in that module.
    pub name: Symbol,
    pub ty: Type,
    pub linkage: Linkage,
    /// The offset of the variable from the start of the heap, once known. An
    /// imported variable has none until a module that exports its name arrives.
    pub offset: Option<u32>,
}

impl GlobalEntry {
    /// The entry without its offset: what a module says of the variable.
    pub open spec fn declaration(self) -> GlobalEntry {
        GlobalEntry { offset: None, ..self }
    }

    /// The heap space the entry takes: the size of its type when it defines
    /// the variable, nothing when it imports it.
    pub open spec fn footprint(self) -> nat {
        if self.linkage.spec_is_definition() {
            self.ty.spec_size_in_bytes()
        } else {
            0
        }
    }

    /// True when the entry exports a variable called `name`.
    pub open spec fn exports(self, name: Symbol) -> bool {
        self.linkage is Exported && self.name == name
    }

    /// True when the entry imports a variable that no module has exported yet.
    pub open spec fn is_pending(self) -> bool {
        self.linkage is Imported && self.offset is None
    }
}

/// What the modules say of the variables of `s`, in order.
pub open spec fn declarations(s: Seq<GlobalEntry>) -> Seq<GlobalEntry> {
    s.map_values(|e: GlobalEntry| e.declaration())
}

/// The heap space that the entries of `s` take together.
pub open spec fn heap_size(s: Seq<GlobalEntry>) -> nat
    decreases s.len(),
{
    if s.len() == 0 {
        0
    } else {
        heap_size(s.drop_last()) + s.last().footprint()
    }
}

/// The offset at which entry `i` of `s` starts when each entry follows
/// the one before it without a gap.
pub open spec fn offset_at(s: Seq<GlobalEntry>, i: int) -> nat {
    heap_size(s.take(i))
}

/// The place of the first entry of `s` that exports `name`.
pub open spec fn first_export(s: Seq<GlobalEntry>, name: Symbol) -> Option<int>
    decreases s.len(),
{
    if s.len() == 0 {
        None
    } else {
        match first_export(s.drop_last(), name) {
            Some(j) => Some(j),
            None => if s.last().exports(name) {
                Some(s.len() - 1)
            } else {
                None
            },
        }
    }
}

/// The offset that entry `i` of `s` must hold. A definition starts where the
/// definitions in front of it end. An import has the offset of the first
/// entry that exports its name, and none while there is no such entry.
pub open spec fn expected_offset(s: Seq<GlobalEntry>, i: int) -> Option<u32> {
    if s[i].linkage is Imported {
        match first_export(s, s[i].name) {
            Some(j) => Some(offset_at(s, j) as u32),
            None => None,
        }
    } else {
        Some(offset_at(s, i) as u32)
    }
}

/// True when no two entries of `s` declare the same variable of the same module.
pub open spec fn distinct_keys(s: Seq<GlobalEntry>) -> bool {
    forall|i: int, j: int|
        0 <= i < j < s.len() ==> !((#[trigger] s[i]).module == (#[trigger] s[j]).module && s[i].name
            == s[j].name)
}

/// The invariant of a table of global variables: the heap fits the address
/// space, every entry holds the offset that the layout gives it, and no
/// variable is declared twice.
pub open spec fn laid_out(s: Seq<GlobalEntry>) -> bool {
    &&& heap_size(s) <= u32::MAX
    &&& forall|i: int| 0 <= i < s.len() ==> (#[trigger] s[i]).offset == expected_offset(s, i)
    &&& distinct_keys(s)
}

/// The names of the imports of `s` that no entry exports, one for each such
/// import, in table order.
pub open spec fn unresolved_names(s: Seq<GlobalEntry>) -> Seq<Symbol>
    decreases s.len(),
{
    if s.len() == 0 {
        Seq::empty()
    } else if s.last().is_pending() {
        unresolved_names(s.drop_last()).push(s.last().name)
    } else {
        unresolved_names(s.drop_last())
    }
}

/// The heap space of a prefix is at most that of the whole.
pub proof fn lemma_heap_size_prefix(s: Seq<GlobalEntry>, i: int, j: int)
    requires
        0 <= i <= j <= s.len(),
    ensures
        offset_at(s, i) <= offset_at(s, j),
        offset_at(s, s.len() as int) == heap_size(s),
    decreases j - i,
{
    assert(s.take(s.len() as int) =~= s);
    if i < j {
        lemma_heap_size_prefix(s, i, j - 1);
        assert(s.take(j).drop_last() =~= s.take(j - 1));
    }
}

/// An entry ends where the next one starts.
pub proof fn lemma_offset_step(s: Seq<GlobalEntry>, i: int)
    requires
        0 <= i < s.len(),
    ensures
        offset_at(s, i + 1) == offset_at(s, i) + s[i].footprint(),
{
    assert(s.take(i + 1).drop_last() =~= s.take(i));
}

/// What `first_export` finds is the first entry that exports the name, and it
/// finds nothing only where no entry exports it.
pub proof fn lemma_first_export(s: Seq<GlobalEntry>, name: Symbol)
    ensures
        first_export(s, name) matches Some(j) ==> 0 <= j < s.len() && s[j].exports(name)
            && forall|k: int| 0 <= k < j ==> !(#[trigger] s[k]).exports(name),
        first_export(s, name) is None ==> forall|k: int|
            0 <= k < s.len() ==> !(#[trigger] s[k]).exports(name),
    decreases s.len(),
{
    if s.len() > 0 {
        let t = s.drop_last();
        lemma_first_export(t, name);
        assert forall|k: int| 0 <= k < t.len() implies t[k] == s[k] by {}
        match first_export(t, name) {
            Some(j) => {
                assert(t[j] == s[j]);
                assert forall|k: int| 0 <= k < j implies !(#[trigger] s[k]).exports(name) by {
                    assert(t[k] == s[k]);
                }
            },
            None => {
                assert forall|k: int| 0 <= k < s.len() - 1 implies !(#[trigger] s[k]).exports(
                    name,
                ) by {
                    assert(t[k] == s[k]);
                }
            },
        }
    }
}

/// An index is what `first_export` finds when its entry exports the name and
/// no entry in front of it does.
pub proof fn lemma_first_export_is(s: Seq<GlobalEntry>, name: Symbol, j: int)
    requires
        0 <= j < s.len(),
        s[j].exports(name),
        forall|k: int| 0 <= k < j ==> !(#[trigger] s[k]).exports(name),
    ensures
        first_export(s, name) == Some(j),
{
    lemma_first_export(s, name);
}

/// The offsets and exports of a table depend on nothing but its
/// declarations: two tables with the same declarations are laid out alike.
pub proof fn lemma_layout_of_declarations(a: Seq<GlobalEntry>, b: Seq<GlobalEntry>)
    requires
        declarations(a) == declarations(b),
    ensures
        a.len() == b.len(),
        heap_size(a) == heap_size(b),
        forall|name: Symbol| first_export(a, name) == first_export(b, name),
        forall|n: int| 0 <= n <= a.len() ==> declarations(a.take(n)) == declarations(b.take(n)),
    decreases a.len(),
{
    assert(a.len() == declarations(a).len());
    assert(b.len() == declarations(b).len());
    assert forall|n: int| 0 <= n <= a.len() implies declarations(a.take(n)) == declarations(
        b.take(n),
    ) by {
        assert(declarations(a.take(n)) =~= declarations(a).take(n));
        assert(declarations(b.take(n)) =~= declarations(b).take(n));
    }
    if a.len() > 0 {
        let n = a.len() - 1;
        assert(a.drop_last() =~= a.take(n));
        assert(b.drop_last() =~= b.take(n));
        lemma_layout_of_declarations(a.drop_last(), b.drop_last());
        assert(declarations(a)[n] == a[n].declaration());
        assert(declarations(b)[n] == b[n].declaration());
        assert forall|name: Symbol| first_export(a, name) == first_export(b, name) by {
            assert(first_export(a.drop_last(), name) == first_export(b.drop_last(), name));
            assert(a.last() == a[n] && b.last() == b[n]);
            assert(a[n].declaration().exports(name) == b[n].declaration().exports(name));
        }
    }
}

/// Two laid-out tables with the same declarations are the same table.
pub proof fn lemma_layout_is_unique(a: Seq<GlobalEntry>, b: Seq<GlobalEntry>)
    requires
        laid_out(a),
        laid_out(b),
        declarations(a) == declarations(b),
    ensures
        a == b,
{
    lemma_layout_of_declarations(a, b);
    assert forall|i: int| 0 <= i < a.len() implies a[i] == b[i] by {
        assert(declarations(a)[i] == a[i].declaration());
        assert(declarations(b)[i] == b[i].declaration());
        lemma_layout_of_declarations(a.take(i), b.take(i));
        match first_export(a, a[i].name) {
            Some(j) => {
                lemma_first_export(a, a[i].name);
                lemma_layout_of_declarations(a.take(j), b.take(j));
            },
            None => {},
        }
        assert(a[i].offset == expected_offset(a, i));
        assert(b[i].offset == expected_offset(b, i));
    }
    assert(a =~= b);
}

/// Two definitions of a laid-out table never share a byte: the earlier
/// one ends where the later one starts, or before.
pub proof fn lemma_definitions_disjoint(s: Seq<GlobalEntry>, i: int, j: int)
    requires
        laid_out(s),
        0 <= i < j < s.len(),
        s[i].linkage.spec_is_definition(),
        s[j].linkage.spec_is_definition(),
    ensures
        s[i].offset is Some,
        s[j].offset is Some,
        s[i].offset.unwrap() + s[i].ty.spec_size_in_bytes() <= s[j].offset.unwrap(),
        s[j].offset.unwrap() + s[j].ty.spec_size_in_bytes() <= heap_size(s),
{
    lemma_offset_step(s, i);
    lemma_offset_step(s, j);
    lemma_heap_size_prefix(s, i + 1, j);
    lemma_heap_size_prefix(s, j + 1, s.len() as int);
    lemma_heap_size_prefix(s, i, s.len() as int);
    lemma_heap_size_prefix(s, j, s.len() as int);
}

/// In a laid-out table an import has an offset exactly when some entry
/// exports its name, and then it is the offset of the first such entry: both
/// refer to one storage cell.
pub proof fn lemma_import_shares_offset(s: Seq<GlobalEntry>, i: int)
    requires
        laid_out(s),
        0 <= i < s.len(),
        s[i].linkage is Imported,
    ensures
        s[i].offset is Some <==> exists|j: int| 0 <= j < s.len() && (#[trigger] s[j]).exports(s[i].name),
        first_export(s, s[i].name) matches Some(j) ==> 0 <= j < s.len() && s[j].exports(s[i].name)
            && s[j].offset is Some && s[i].offset == s[j].offset,
{
    lemma_first_export(s, s[i].name);
}

/// The table that the declarations `decls` give: each entry with the offset
/// that the layout assigns to it.
pub open spec fn layout(decls: Seq<GlobalEntry>) -> Seq<GlobalEntry> {
    Seq::new(decls.len(), |i: int| GlobalEntry { offset: expected_offset(decls, i), ..decls[i] })
}

/// A laid-out table is the layout of its declarations.
pub proof fn lemma_laid_out_is_layout(s: Seq<GlobalEntry>)
    requires
        laid_out(s),
    ensures
        s == layout(declarations(s)),
{
    let d = declarations(s);
    lemma_layout_of_declarations(s, d);
    assert(declarations(d) =~= d);
    assert forall|i: int| 0 <= i < s.len() implies s[i] == layout(d)[i] by {
        assert(d[i] == s[i].declaration());
        lemma_layout_of_declarations(s.take(i), d.take(i));
        if s[i].linkage is Imported {
            match first_export(s, s[i].name) {
                Some(j) => {
                    lemma_first_export(s, s[i].name);
                    lemma_layout_of_declarations(s.take(j), d.take(j));
                },
                None => {},
            }
        }
        assert(s[i].offset == expected_offset(s, i));
    }
    assert(s =~= layout(d));
}

/// The layout of declarations that fit the address space and declare no
/// variable twice is a laid-out table with those declarations.
pub proof fn lemma_layout_is_laid_out(d: Seq<GlobalEntry>)
    requires
        heap_size(d) <= u32::MAX,
        distinct_keys(d),
    ensures
        laid_out(layout(d)),
        declarations(layout(d)) == declarations(d),
{
    let s = layout(d);
    assert(declarations(s) =~= declarations(d));
    lemma_layout_of_declarations(s, d);
    assert forall|i: int| 0 <= i < s.len() implies (#[trigger] s[i]).offset == expected_offset(
        s,
        i,
    ) by {
        lemma_layout_of_declarations(s.take(i), d.take(i));
        if s[i].linkage is Imported {
            match first_export(s, s[i].name) {
                Some(j) => {
                    lemma_first_export(s, s[i].name);
                    lemma_layout_of_declarations(s.take(j), d.take(j));
                },
                None => {},
            }
        }
    }
    assert forall|i: int, j: int| 0 <= i < j < s.len() implies !((#[trigger] s[i]).module == (
    #[trigger] s[j]).module && s[i].name == s[j].name) by {
        assert(d[i].module == s[i].module && d[j].module == s[j].module);
    }
}

/// True when `s` declares the variable `name` of `module`.
pub open spec fn declares(s: Seq<GlobalEntry>, module: Symbol, name: Symbol) -> bool {
    exists|k: int| 0 <= k < s.len() && (#[trigger] s[k]).module == module && s[k].name == name
}

/// A table takes as much heap as its declarations do.
pub proof fn lemma_heap_size_of_declarations(s: Seq<GlobalEntry>)
    ensures
        heap_size(declarations(s)) == heap_size(s),
        declarations(declarations(s)) == declarations(s),
{
    assert(declarations(declarations(s)) =~= declarations(s));
    lemma_layout_of_declarations(declarations(s), s);
}

/// Where the declarations of `table` are the first `n` of `all`, and the
/// next of `all` does not fit a heap of `limit` bytes behind `table`, `all`
/// does not fit it.
pub proof fn lemma_heap_exhausted(all: Seq<GlobalEntry>, table: Seq<GlobalEntry>, n: int, limit: int)
    requires
        0 <= n < all.len(),
        declarations(table) == all.take(n),
        heap_size(table) + all[n].footprint() > limit,
    ensures
        heap_size(all) > limit,
{
    lemma_heap_size_of_declarations(table);
    lemma_offset_step(all, n);
    lemma_heap_size_prefix(all, n + 1, all.len() as int);
}

/// The layout after one more declaration. The offsets of the entries that
/// were there stay, but for the imports that waited for the name that `e`
/// exports: they get the offset of `e`, which is the old heap size.
pub proof fn lemma_layout_after_push(s: Seq<GlobalEntry>, e: GlobalEntry)
    requires
        laid_out(s),
    ensures
        heap_size(s.push(e)) == heap_size(s) + e.footprint(),
        forall|i: int|
            0 <= i < s.len() ==> #[trigger] expected_offset(s.push(e), i) == (if s[i].is_pending()
                && e.exports(s[i].name) {
                Some(heap_size(s) as u32)
            } else {
                s[i].offset
            }),
        expected_offset(s.push(e), s.len() as int) == (if e.linkage is Imported {
            match first_export(s, e.name) {
                Some(j) => s[j].offset,
                None => None,
            }
        } else {
            Some(heap_size(s) as u32)
        }),
{
    let p = s.push(e);
    let n = s.len() as int;
    assert(p.drop_last() =~= s);
    assert(p.take(n) =~= s);
    lemma_heap_size_prefix(s, 0, n);
    assert forall|i: int| 0 <= i <= n implies offset_at(p, i) == offset_at(s, i) by {
        assert(p.take(i) =~= s.take(i));
    }
    assert forall|i: int| 0 <= i < n implies #[trigger] expected_offset(p, i) == (if s[i].is_pending()
        && e.exports(s[i].name) {
        Some(heap_size(s) as u32)
    } else {
        s[i].offset
    }) by {
        assert(p[i] == s[i]);
        assert(s[i].offset == expected_offset(s, i));
        lemma_first_export(s, s[i].name);
    }
    if e.linkage is Imported {
        lemma_first_export(s, e.name);
        match first_export(s, e.name) {
            Some(j) => {
                assert(s[j].offset == expected_offset(s, j));
            },
            None => {},
        }
    }
}

/// No import of `s` waits for its definition exactly when `s` has no
/// unresolved name.
pub proof fn lemma_unresolved_names(s: Seq<GlobalEntry>)
    ensures
        unresolved_names(s).len() == 0 <==> forall|i: int|
            0 <= i < s.len() ==> !(#[trigger] s[i]).is_pending(),
        forall|k: int|
            0 <= k < unresolved_names(s).len() ==> exists|i: int|
                0 <= i < s.len() && (#[trigger] s[i]).is_pending() && s[i].name
                    == #[trigger] unresolved_names(s)[k],
    decreases s.len(),
{
    if s.len() > 0 {
        let t = s.drop_last();
        lemma_unresolved_names(t);
        assert forall|i: int| 0 <= i < t.len() implies t[i] == s[i] by {}
        if unresolved_names(s).len() == 0 {
            assert forall|i: int| 0 <= i < s.len() implies !(#[trigger] s[i]).is_pending() by {
                if i < t.len() {
                    assert(t[i] == s[i]);
                }
            }
        }
        if forall|i: int| 0 <= i < s.len() ==> !(#[trigger] s[i]).is_pending() {
            assert forall|i: int| 0 <= i < t.len() implies !(#[trigger] t[i]).is_pending() by {
                assert(t[i] == s[i]);
            }
        }
        assert forall|k: int| 0 <= k < unresolved_names(s).len() implies exists|i: int|
            0 <= i < s.len() && (#[trigger] s[i]).is_pending() && s[i].name
                == #[trigger] unresolved_names(s)[k] by {
            if k < unresolved_names(t).len() {
                let i = choose|i: int|
                    0 <= i < t.len() && (#[trigger] t[i]).is_pending() && t[i].name
                        == unresolved_names(t)[k];
                assert(s[i].is_pending() && s[i].name == unresolved_names(s)[k]);
            } else {
                assert(s[s.len() - 1].is_pending());
            }
        }
    }
}

/// Every import of `s` that waits for its definition is named among the
/// unresolved names of `s`.
pub proof fn lemma_pending_names_listed(s: Seq<GlobalEntry>)
    ensures
        forall|i: int|
            0 <= i < s.len() && (#[trigger] s[i]).is_pending() ==> unresolved_names(s).contains(
                s[i].name,
            ),
    decreases s.len(),
{
    if s.len() > 0 {
        let t = s.drop_last();
        lemma_pending_names_listed(t);
        let names = unresolved_names(s);
        assert forall|i: int| 0 <= i < s.len() && (#[trigger] s[i]).is_pending() implies names.contains(
            s[i].name,
        ) by {
            if i < t.len() {
                assert(t[i] == s[i]);
                let k = choose|k: int|
                    0 <= k < unresolved_names(t).len() && unresolved_names(t)[k] == s[i].name;
                assert(names[k] == s[i].name);
            } else {
                assert(names[names.len() - 1] == s[i].name);
            }
        }
    }
}

/// Why a declaration was turned down.
#[derive(Clone, Copy, Debug, PartialEq, Eq, Structural)]
pub enum DeclareError {
    /// The module has declared a variable of that name before, at the place given.
    AlreadyDeclared(usize),
    /// The heap would grow beyond its limit.
    HeapExhausted,
}

/// The global variables of a program in the order of their declaration,
/// each with its offset on the shared heap.
#[derive(Debug)]
pub struct GlobalVariableTable {
    entries: Vec<GlobalEntry>,
    next_offset: u32,
    limit: u32,
}

impl View for GlobalVariableTable {
    type V = Seq<GlobalEntry>;

    closed spec fn view(&self) -> Seq<GlobalEntry> {
        self.entries@
    }
}

impl GlobalVariableTable {
    /// The number of heap bytes that the table has recorded as taken.
    pub closed spec fn spec_size_in_bytes(&self) -> u32 {
        self.next_offset
    }

    /// The number of bytes up to which the heap may grow.
    pub closed spec fn spec_limit(&self) -> u32 {
        self.limit
    }

    /// The invariant of the table: its entries are laid out, the recorded
    /// heap size is the space they take, and that is within the limit.
    pub open spec fn wf(&self) -> bool {
        &&& laid_out(self@)
        &&& self.spec_size_in_bytes() == heap_size(self@)
        &&& heap_size(self@) <= self.spec_limit()
    }

    /// The empty table, for a heap that may fill the 32-bit address space.
    pub fn new() -> (t: Self)
        ensures
            t.wf(),
            t@ == Seq::<GlobalEntry>::empty(),
            t.spec_limit() == u32::MAX,
    {
        GlobalVariableTable { entries: Vec::new(), next_offset: 0, limit: u32::MAX }
    }

    /// The empty table, for a heap that may grow up to `limit` bytes.
    pub fn with_limit(limit: u32) -> (t: Self)
        ensures
            t.wf(),
            t@ == Seq::<GlobalEntry>::empty(),
            t.spec_limit() == limit,
    {
        GlobalVariableTable { entries: Vec::new(), next_offset: 0, limit }
    }

    /// The number of bytes up to which the heap may grow.
    pub fn limit(&self) -> (n: u32)
        ensures
            n == self.spec_limit(),
    {
        self.limit
    }

    /// The number of variables.
    pub fn len(&self) -> (n: usize)
        ensures
            n == self@.len(),
    {
        self.entries.len()
    }

    /// True when the table holds no variable.
    pub fn is_empty(&self) -> (r: bool)
        ensures
            r == (self@.len() == 0),
    {
        self.entries.len() == 0
    }

    /// The entry at place `index`.
    pub fn get(&self, index: usize) -> (e: Option<GlobalEntry>)
        ensures
            e == (if index < self@.len() {
                Some(self@[index as int])
            } else {
                None
            }),
    {
        if index < self.entries.len() {
            Some(self.entries[index])
        } else {
            None
        }
    }

    /// The heap space that the variables take together, in bytes.
    pub fn size_in_bytes(&self) -> (n: u32)
        requires
            self.wf(),
        ensures
            n == heap_size(self@),
    {
        self.next_offset
    }

    /// The place of the variable `name` of `module`.
    pub fn find(&self, module: Symbol, name: Symbol) -> (r: Option<usize>)
        ensures
            r matches Some(i) ==> i < self@.len() && self@[i as int].module == module
                && self@[i as int].name == name && forall|k: int|
                0 <= k < i ==> !((#[trigger] self@[k]).module == module && self@[k].name == name),
            r is None ==> forall|k: int|
                0 <= k < self@.len() ==> !((#[trigger] self@[k]).module == module && self@[k].name
                    == name),
    {
        let mut i: usize = 0;
        while i < self.entries.len()
            invariant
                0 <= i <= self.entries.len(),
                forall|k: int|
                    0 <= k < i ==> !((#[trigger] self@[k]).module == module && self@[k].name == name),
            decreases self.entries.len() - i,
        {
            let e = &self.entries[i];
            if e.module == module && e.name == name {
                return Some(i);
            }
            i += 1;
        }
        None
    }

    /// The place of the first variable that a module exports under `name`.
    pub fn find_export(&self, name: Symbol) -> (r: Option<usize>)
        ensures
            match r {
                Some(i) => first_export(self@, name) == Some(i as int),
                None => first_export(self@, name) is None,
            },
    {
        let mut i: usize = 0;
        while i < self.entries.len()
            invariant
                0 <= i <= self.entries.len(),
                forall|k: int| 0 <= k < i ==> !(#[trigger] self@[k]).exports(name),
            decreases self.entries.len() - i,
        {
            let e = &self.entries[i];
            if matches!(e.linkage, Linkage::Exported) && e.name == name {
                proof {
                    lemma_first_export_is(self@, name, i as int);
                }
                return Some(i);
            }
            i += 1;
        }
        proof {
            lemma_first_export(self@, name);
        }
        None
    }

    /// Declares the variable `name` of `module`, behind the variables that
    /// are there.
    ///
    /// A definition gets the next free offset of the heap, and the imports
    /// that waited for an export of `name` get that offset too. An import
    /// gets the offset of the first export of `name`, or waits. The table
    /// stays as it is when the module has declared the name before, and when
    /// the definition does not fit the heap within its limit.
    pub fn declare(&mut self, module: Symbol, name: Symbol, ty: Type, linkage: Linkage) -> (r:
        Result<usize, DeclareError>)
        requires
            old(self).wf(),
        ensures
            final(self).wf(),
            final(self).spec_limit() == old(self).spec_limit(),
            match r {
                Ok(i) => {
                    let declared = declarations(old(self)@).push(
                        GlobalEntry { module, name, ty, linkage, offset: None },
                    );
                    &&& !declares(old(self)@, module, name)
                    &&& heap_size(declared) <= old(self).spec_limit()
                    &&& i == old(self)@.len()
                    &&& declarations(final(self)@) == declared
                    &&& final(self)@ == layout(declared)
                },
                Err(DeclareError::AlreadyDeclared(k)) => {
                    &&& k < old(self)@.len()
                    &&& old(self)@[k as int].module == module
                    &&& old(self)@[k as int].name == name
                    &&& *final(self) == *old(self)
                },
                Err(DeclareError::HeapExhausted) => {
                    &&& !declares(old(self)@, module, name)
                    &&& heap_size(old(self)@) + ty.spec_size_in_bytes() > old(self).spec_limit()
                    &&& linkage.spec_is_definition()
                    &&& *final(self) == *old(self)
                },
            },
    {
        if let Some(k) = self.find(module, name) {
            return Err(DeclareError::AlreadyDeclared(k));
        }
        let n = self.entries.len();
        let ghost before = self.entries@;
        let ghost decl = GlobalEntry { module, name, ty, linkage, offset: None };
        proof {
            lemma_layout_after_push(before, decl);
        }
        let offset = if linkage.is_definition() {
            let size = ty.size_in_bytes();
            if size > self.limit - self.next_offset {
                return Err(DeclareError::HeapExhausted);
            }
            let offset = self.next_offset;
            self.next_offset = offset + size;
            Some(offset)
        } else {
            proof {
                lemma_first_export(self@, name);
            }
            match self.find_export(name) {
                Some(j) => self.entries[j].offset,
                None => None,
            }
        };
        let entry = GlobalEntry { module, name, ty, linkage, offset };
        let ghost pushed = before.push(decl);
        let exported = matches!(linkage, Linkage::Exported);
        let mut i: usize = 0;
        while i < n
            invariant
                0 <= i <= n == before.len() == self.entries@.len(),
                laid_out(before),
                decl == (GlobalEntry { module, name, ty, linkage, offset: None }),
                exported == (linkage is Exported),
                exported ==> offset == Some(heap_size(before) as u32),
                self.next_offset == heap_size(before) + decl.footprint(),
                self.limit == old(self).spec_limit(),
                heap_size(before) + decl.footprint() <= self.limit,
                pushed == before.push(decl),
                forall|k: int|
                    0 <= k < before.len() ==> #[trigger] expected_offset(pushed, k)
                        == (if before[k].is_pending()
                        && decl.exports(before[k].name) {
                        Some(heap_size(before) as u32)
                    } else {
                        before[k].offset
                    }),
                forall|k: int|
                    0 <= k < i ==> #[trigger] self.entries@[k] == (GlobalEntry {
                        offset: expected_offset(pushed, k),
                        ..before[k]
                    }),
                forall|k: int| i <= k < n ==> #[trigger] self.entries@[k] == before[k],
            decreases n - i,
        {
            let e = self.entries[i];
            if exported && matches!(e.linkage, Linkage::Imported) && e.offset.is_none() && e.name
                == name {
                self.entries.set(i, GlobalEntry { offset, ..e });
            }
            i += 1;
        }
        self.entries.push(entry);
        proof {
            let after = self.entries@;
            assert(declarations(after) =~= declarations(before).push(decl));
            assert(declarations(pushed) =~= declarations(before).push(decl));
            lemma_layout_of_declarations(after, pushed);
            assert forall|k: int| 0 <= k < after.len() implies (#[trigger] after[k]).offset
                == expected_offset(after, k) by {
                assert(after[k].declaration() == declarations(after)[k]);
                assert(pushed[k].declaration() == declarations(pushed)[k]);
                lemma_layout_of_declarations(after.take(k), pushed.take(k));
                if after[k].linkage is Imported {
                    match first_export(after, after[k].name) {
                        Some(j) => {
                            lemma_first_export(after, after[k].name);
                            lemma_layout_of_declarations(after.take(j), pushed.take(j));
                        },
                        None => {},
                    }
                }
            }
            assert forall|a: int, b: int| 0 <= a < b < after.len() implies !((
            #[trigger] after[a]).module == (#[trigger] after[b]).module && after[a].name
                == after[b].name) by {
                if b < n {
                    assert(before[a].module == after[a].module && before[b].module
                        == after[b].module);
                }
            }
            lemma_laid_out_is_layout(after);
            lemma_heap_size_of_declarations(after);
        }
        Ok(n)
    }

    /// The names of the imports that no module has exported, one for each
    /// such import, in table order.
    pub fn unresolved(&self) -> (names: Vec<Symbol>)
        ensures
            names@ == unresolved_names(self@),
    {
        let mut names: Vec<Symbol> = Vec::new();
        let mut i: usize = 0;
        while i < self.entries.len()
            invariant
                0 <= i <= self.entries.len(),
                names@ == unresolved_names(self@.take(i as int)),
            decreases self.entries.len() - i,
        {
            let e = &self.entries[i];
            proof {
                assert(self@.take(i + 1).drop_last() =~= self@.take(i as int));
            }
            if matches!(e.linkage, Linkage::Imported) && e.offset.is_none() {
                names.push(e.name);
            }
            i += 1;
        }
        proof {
            assert(self@.take(self@.len() as int) =~= self@);
        }
        names
    }
}

impl Clone for GlobalVariableTable {
    fn clone(&self) -> (r: Self)
        ensures
            r@ == self@,
            r.spec_size_in_bytes() == self.spec_size_in_bytes(),
            r.spec_limit() == self.spec_limit(),
    {
        let entries = self.entries.clone();
        assert(entries@ =~= self.entries@);
        GlobalVariableTable { entries, next_offset: self.next_offset, limit: self.limit }
    }
}

} // verus!
