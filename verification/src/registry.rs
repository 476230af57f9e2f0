//! Definition registry: a mapping from identifier names to the occurrences
//! recorded for them, each tagged with a kind and a source location.
//!
//! Occurrences are kept in insertion order and deduplicated by location
//! equality alone: two occurrences at the same location count as the same
//! entry whatever their kinds, and the first recorded one is kept.
//! Resolution prefers a definition-kind occurrence that precedes the
//! reference in the same file and is textually closest to it; failing that,
//! the first recorded definition-kind occurrence; and fails only when no
//! definition-kind occurrence is recorded at all.
use crate::assoc::distinct_keys;
use crate::assoc::find_key;
use crate::assoc::lemma_distinct_push;
use crate::assoc::lemma_distinct_update;
use crate::assoc::lemma_lookup_absent;
use crate::assoc::lemma_lookup_at;
use crate::assoc::lemma_lookup_push;
use crate::assoc::lemma_lookup_update;
use crate::assoc::lookup;
use vstd::prelude::*;

verus! {

/// A source range inside one file: zero-based lines and columns.
#[derive(Debug)]
pub struct Location {
    pub uri: String,
    pub start_line: u32,
    pub start_col: u32,
    pub end_line: u32,
    pub end_col: u32,
}

/// Mathematical image of a `Location`.
pub ghost struct LocModel {
    pub uri: Seq<char>,
    pub start_line: nat,
    pub start_col: nat,
    pub end_line: nat,
    pub end_col: nat,
}

impl View for Location {
    type V = LocModel;

    open spec fn view(&self) -> LocModel {
        LocModel {
            uri: self.uri@,
            start_line: self.start_line as nat,
            start_col: self.start_col as nat,
            end_line: self.end_line as nat,
            end_col: self.end_col as nat,
        }
    }
}

/// A well-formed location strictly spans lines and columns.
pub open spec fn loc_valid(l: LocModel) -> bool {
    l.start_line < l.end_line && l.start_col < l.end_col
}

impl Clone for Location {
    fn clone(&self) -> (r: Self)
        ensures
            r == *self,
    {
        Location {
            uri: self.uri.clone(),
            start_line: self.start_line,
            start_col: self.start_col,
            end_line: self.end_line,
            end_col: self.end_col,
        }
    }
}

impl Location {
    /// Whether the range is well-formed: it strictly spans lines and columns.
    pub fn is_valid(&self) -> (r: bool)
        ensures
            r == loc_valid(self@),
    {
        self.start_line < self.end_line && self.start_col < self.end_col
    }

    /// The negation of `is_valid`.
    pub fn not_valid(&self) -> (r: bool)
        ensures
            r == !loc_valid(self@),
    {
        !self.is_valid()
    }
}

/// The role an occurrence plays, stripped of its location.
#[derive(Clone, Copy, Debug, PartialEq, Eq, Structural)]
pub enum SymbolKind {
    FuncDef,
    IdentDef,
    Func,
    IdentRef,
}

/// One recorded appearance of an identifier: a kind and a location.
#[derive(Debug)]
pub enum NasalLspType {
    FuncDef(Location),
    IdentDef(Location),
    Func(Location),
    IdentRef(Location),
}

/// Mathematical image of a `NasalLspType`.
pub ghost struct OccModel {
    pub kind: SymbolKind,
    pub loc: LocModel,
}

impl View for NasalLspType {
    type V = OccModel;

    open spec fn view(&self) -> OccModel {
        match self {
            NasalLspType::FuncDef(l) => OccModel { kind: SymbolKind::FuncDef, loc: l@ },
            NasalLspType::IdentDef(l) => OccModel { kind: SymbolKind::IdentDef, loc: l@ },
            NasalLspType::Func(l) => OccModel { kind: SymbolKind::Func, loc: l@ },
            NasalLspType::IdentRef(l) => OccModel { kind: SymbolKind::IdentRef, loc: l@ },
        }
    }
}

impl Clone for NasalLspType {
    fn clone(&self) -> (r: Self)
        ensures
            r == *self,
    {
        match self {
            NasalLspType::FuncDef(l) => NasalLspType::FuncDef(l.clone()),
            NasalLspType::IdentDef(l) => NasalLspType::IdentDef(l.clone()),
            NasalLspType::Func(l) => NasalLspType::Func(l.clone()),
            NasalLspType::IdentRef(l) => NasalLspType::IdentRef(l.clone()),
        }
    }
}

impl NasalLspType {
    /// The location of this occurrence.
    pub fn location(&self) -> (r: &Location)
        ensures
            r@ == self@.loc,
    {
        match self {
            NasalLspType::FuncDef(l) => l,
            NasalLspType::IdentDef(l) => l,
            NasalLspType::Func(l) => l,
            NasalLspType::IdentRef(l) => l,
        }
    }

    /// The file this occurrence lies in.
    pub fn uri(&self) -> (r: String)
        ensures
            r@ == self@.loc.uri,
    {
        self.location().uri.clone()
    }

    /// Whether this occurrence defines its identifier.
    pub fn is_definition_kind(&self) -> (r: bool)
        ensures
            r == is_definition(self@),
    {
        match self {
            NasalLspType::FuncDef(_) => true,
            NasalLspType::IdentDef(_) => true,
            NasalLspType::Func(_) => false,
            NasalLspType::IdentRef(_) => false,
        }
    }
}

/// Whether an occurrence defines its identifier rather than referring to it.
pub open spec fn is_definition(o: OccModel) -> bool {
    o.kind == SymbolKind::FuncDef || o.kind == SymbolKind::IdentDef
}

/// The occurrences a recorded list stands for, in insertion order.
pub open spec fn occs_model(v: Seq<NasalLspType>) -> Seq<OccModel> {
    v.map_values(|o: NasalLspType| o@)
}

/// Whether some occurrence of the list sits at `loc`.
pub open spec fn has_location(l: Seq<OccModel>, loc: LocModel) -> bool {
    exists|i: int| 0 <= i < l.len() && (#[trigger] l[i]).loc == loc
}

/// What recording `occ` leaves under a name: a fresh one-entry list, the old
/// list when its location is already present, or the old list with `occ`
/// appended.
pub open spec fn added_entry(e: Option<Seq<OccModel>>, occ: OccModel) -> Seq<OccModel> {
    match e {
        None => seq![occ],
        Some(l) => if has_location(l, occ.loc) {
            l
        } else {
            l.push(occ)
        },
    }
}

/// `a` starts strictly before `b` does.
pub open spec fn pos_lt(a: LocModel, b: LocModel) -> bool {
    a.start_line < b.start_line || (a.start_line == b.start_line && a.start_col < b.start_col)
}

/// A definition-kind occurrence in the same file that starts before `at`.
pub open spec fn precedes(o: OccModel, at: LocModel) -> bool {
    is_definition(o) && o.loc.uri == at.uri && pos_lt(o.loc, at)
}

/// The preceding definition that starts latest, ties going to the earliest
/// recorded one.
pub open spec fn best_preceding(l: Seq<OccModel>, at: LocModel) -> Option<OccModel>
    decreases l.len(),
{
    if l.len() == 0 {
        None
    } else {
        let prev = best_preceding(l.drop_last(), at);
        let o = l.last();
        if precedes(o, at) && (prev is None || pos_lt(prev->0.loc, o.loc)) {
            Some(o)
        } else {
            prev
        }
    }
}

/// The earliest recorded definition-kind occurrence.
pub open spec fn first_definition(l: Seq<OccModel>) -> Option<OccModel>
    decreases l.len(),
{
    if l.len() == 0 {
        None
    } else if is_definition(l[0]) {
        Some(l[0])
    } else {
        first_definition(l.drop_first())
    }
}

/// Whether any recorded occurrence is of definition kind.
pub open spec fn has_definition(l: Seq<OccModel>) -> bool {
    exists|i: int| 0 <= i < l.len() && is_definition(#[trigger] l[i])
}

/// The occurrence a definition query must return: the closest preceding
/// definition in the reference's file, else the first recorded definition.
pub open spec fn resolved_definition(l: Seq<OccModel>, at: LocModel) -> Option<OccModel> {
    if best_preceding(l, at) is Some {
        best_preceding(l, at)
    } else {
        first_definition(l)
    }
}

/// Recording the same occurrence again changes nothing: its location is
/// already present after the first recording.
pub proof fn lemma_add_idempotent(e: Option<Seq<OccModel>>, occ: OccModel)
    ensures
        added_entry(Some(added_entry(e, occ)), occ) == added_entry(e, occ),
{
    let l1 = added_entry(e, occ);
    match e {
        None => {
            assert(l1[0].loc == occ.loc);
            assert(has_location(l1, occ.loc));
        },
        Some(l) => {
            if has_location(l, occ.loc) {
                let i = choose|i: int| 0 <= i < l.len() && (#[trigger] l[i]).loc == occ.loc;
                assert(l1[i].loc == occ.loc);
                assert(has_location(l1, occ.loc));
            } else {
                assert(l1[l.len() as int].loc == occ.loc);
                assert(has_location(l1, occ.loc));
            }
        },
    }
}

proof fn lemma_best_preceding_none(l: Seq<OccModel>, at: LocModel)
    requires
        forall|i: int| 0 <= i < l.len() ==> !is_definition(#[trigger] l[i]),
    ensures
        best_preceding(l, at) is None,
    decreases l.len(),
{
    if l.len() > 0 {
        assert(forall|i: int|
            0 <= i < l.drop_last().len() ==> !is_definition(#[trigger] l.drop_last()[i]));
        lemma_best_preceding_none(l.drop_last(), at);
        assert(!is_definition(l.last()));
    }
}

proof fn lemma_first_definition_none(l: Seq<OccModel>)
    requires
        forall|i: int| 0 <= i < l.len() ==> !is_definition(#[trigger] l[i]),
    ensures
        first_definition(l) is None,
    decreases l.len(),
{
    if l.len() > 0 {
        assert(forall|i: int|
            0 <= i < l.drop_first().len() ==> !is_definition(#[trigger] l.drop_first()[i]));
        lemma_first_definition_none(l.drop_first());
    }
}

proof fn lemma_first_definition_found(l: Seq<OccModel>, i: int)
    requires
        0 <= i < l.len(),
        is_definition(l[i]),
        forall|j: int| 0 <= j < i ==> !is_definition(#[trigger] l[j]),
    ensures
        first_definition(l) == Some(l[i]),
    decreases l.len(),
{
    if i > 0 {
        assert(!is_definition(l[0]));
        assert(forall|j: int|
            0 <= j < i - 1 ==> !is_definition(#[trigger] l.drop_first()[j]));
        assert(l.drop_first()[i - 1] == l[i]);
        lemma_first_definition_found(l.drop_first(), i - 1);
    }
}

/// A name with no definition-kind occurrence resolves to nothing, whatever
/// reference-kind occurrences were recorded for it.
pub proof fn lemma_no_definition_resolves(l: Seq<OccModel>, at: LocModel)
    requires
        forall|i: int| 0 <= i < l.len() ==> !is_definition(#[trigger] l[i]),
    ensures
        resolved_definition(l, at) is None,
{
    lemma_best_preceding_none(l, at);
    lemma_first_definition_none(l);
}

/// Absence of a queried definition: nothing was recorded under the name.
#[derive(Clone, Copy, Debug, PartialEq, Eq, Structural)]
pub struct NotFoundError;

/// The per-server index from identifier names to their known occurrences.
pub struct Definitions {
    defs: Vec<(String, Vec<NasalLspType>)>,
}

impl Definitions {
    /// The association of names to recorded occurrences this registry holds.
    pub closed spec fn pairs(self) -> Seq<(Seq<char>, Seq<OccModel>)> {
        self.defs@.map_values(|p: (String, Vec<NasalLspType>)| (p.0@, occs_model(p.1@)))
    }

    /// Every name is recorded at most once.
    pub open spec fn wf(self) -> bool {
        distinct_keys(self.pairs())
    }

    /// An empty registry.
    pub fn new() -> (r: Definitions)
        ensures
            r.wf(),
            r.pairs() == Seq::<(Seq<char>, Seq<OccModel>)>::empty(),
    {
        let r = Definitions { defs: Vec::new() };
        proof {
            assert(r.pairs() =~= Seq::<(Seq<char>, Seq<OccModel>)>::empty());
        }
        r
    }

    /// Record `def` under `key`, keeping occurrences deduplicated by
    /// location: the list under `key` becomes `added_entry` of the old one,
    /// and every other name keeps its occurrences.
    pub fn add(&mut self, key: &String, def: NasalLspType)
        requires
            old(self).wf(),
        ensures
            final(self).wf(),
            forall|k: Seq<char>| #[trigger]
                lookup(final(self).pairs(), k) == if k == key@ {
                    Some(added_entry(lookup(old(self).pairs(), key@), def@))
                } else {
                    lookup(old(self).pairs(), k)
                },
    {
        let ghost old_pairs = self.pairs();
        match find_key(&self.defs, key) {
            Some(i) => {
                proof {
                    assert(old_pairs[i as int] == (self.defs@[i as int].0@, occs_model(
                        self.defs@[i as int].1@,
                    )));
                    lemma_lookup_at(old_pairs, i as int);
                }
                let dup = find_location(&self.defs[i].1, def.location());
                let ghost l = occs_model(self.defs@[i as int].1@);
                match dup {
                    Some(_) => {
                        proof {
                            assert(has_location(l, def@.loc));
                            assert(added_entry(Some(l), def@) == l);
                        }
                    },
                    None => {
                        let mut entry = self.defs.remove(i);
                        entry.1.push(def);
                        self.defs.insert(i, entry);
                        proof {
                            assert(self.defs@ =~= old(self).defs@.update(
                                i as int,
                                self.defs@[i as int],
                            ));
                            assert(occs_model(self.defs@[i as int].1@) =~= l.push(def@));
                            assert(self.pairs() =~= old_pairs.update(
                                i as int,
                                (old_pairs[i as int].0, l.push(def@)),
                            ));
                            lemma_distinct_update(old_pairs, i as int, l.push(def@));
                            assert(added_entry(Some(l), def@) == l.push(def@));
                            assert forall|k: Seq<char>| #[trigger]
                                lookup(self.pairs(), k) == if k == key@ {
                                    Some(added_entry(lookup(old_pairs, key@), def@))
                                } else {
                                    lookup(old_pairs, k)
                                } by {
                                lemma_lookup_update(old_pairs, i as int, l.push(def@), k);
                            }
                        }
                    },
                }
            },
            None => {
                proof {
                    lemma_lookup_absent(old_pairs, key@);
                }
                let mut fresh: Vec<NasalLspType> = Vec::new();
                fresh.push(def);
                self.defs.push((key.clone(), fresh));
                proof {
                    let ghost p = (key@, added_entry(None, def@));
                    assert(occs_model(self.defs@[self.defs@.len() - 1].1@) =~= seq![def@]);
                    assert(self.pairs() =~= old_pairs.push(p));
                    lemma_distinct_push(old_pairs, p);
                    assert forall|k: Seq<char>| #[trigger]
                        lookup(self.pairs(), k) == if k == key@ {
                            Some(added_entry(lookup(old_pairs, key@), def@))
                        } else {
                            lookup(old_pairs, k)
                        } by {
                        lemma_lookup_push(old_pairs, p, k);
                    }
                }
            },
        }
    }

    /// Every occurrence recorded under `key`, in insertion order, or nothing
    /// if the name was never recorded.
    pub fn matches(&self, key: &String) -> (r: Option<&Vec<NasalLspType>>)
        requires
            self.wf(),
        ensures
            match r {
                Some(v) => lookup(self.pairs(), key@) == Some(occs_model(v@)),
                None => lookup(self.pairs(), key@) is None,
            },
    {
        match find_key(&self.defs, key) {
            Some(i) => {
                proof {
                    assert(self.pairs()[i as int] == (self.defs@[i as int].0@, occs_model(
                        self.defs@[i as int].1@,
                    )));
                    lemma_lookup_at(self.pairs(), i as int);
                }
                Some(&self.defs[i].1)
            },
            None => {
                proof {
                    assert(forall|j: int|
                        0 <= j < self.pairs().len() ==> (#[trigger] self.pairs()[j]).0 != key@);
                    lemma_lookup_absent(self.pairs(), key@);
                }
                None
            },
        }
    }

    /// The occurrence that most plausibly defines `key` for a reference at
    /// `loc`: the textually closest definition-kind occurrence preceding
    /// `loc` in the same file, else the first recorded definition-kind
    /// occurrence; an error exactly when no definition-kind occurrence is
    /// recorded under `key`.
    pub fn definition(&self, key: &String, loc: &Location) -> (r: Result<
        NasalLspType,
        NotFoundError,
    >)
        requires
            self.wf(),
        ensures
            match r {
                Ok(o) => match lookup(self.pairs(), key@) {
                    Some(l) => resolved_definition(l, loc@) == Some(o@),
                    None => false,
                },
                Err(e) => match lookup(self.pairs(), key@) {
                    Some(l) => !has_definition(l),
                    None => true,
                },
            },
    {
        let list = match self.matches(key) {
            Some(v) => v,
            None => {
                return Err(NotFoundError);
            },
        };
        let ghost l = occs_model(list@);
        let n = list.len();
        let mut best: Option<usize> = None;
        let mut i: usize = 0;
        while i < n
            invariant
                n == list@.len(),
                i <= n,
                l == occs_model(list@),
                lookup(self.pairs(), key@) == Some(l),
                match best {
                    Some(b) => b < i && best_preceding(l.take(i as int), loc@) == Some(
                        l[b as int],
                    ),
                    None => best_preceding(l.take(i as int), loc@) is None,
                },
            decreases n - i,
        {
            proof {
                assert(l.take(i as int + 1).drop_last() =~= l.take(i as int));
                assert(l.take(i as int + 1).last() == l[i as int]);
            }
            let o = &list[i];
            let is_prec = precedes_exec(o, loc);
            let replace = match best {
                Some(b) => is_prec && pos_before(list[b].location(), o.location()),
                None => is_prec,
            };
            if replace {
                best = Some(i);
            }
            i = i + 1;
        }
        proof {
            assert(l.take(n as int) =~= l);
        }
        match best {
            Some(b) => {
                let o = &list[b];
                let r = o.clone();
                proof {
                    assert(r@ == l[b as int]);
                    assert(resolved_definition(l, loc@) == Some(r@));
                }
                Ok(r)
            },
            None => {
                let mut j: usize = 0;
                while j < n
                    invariant
                        n == list@.len(),
                        j <= n,
                        l == occs_model(list@),
                        lookup(self.pairs(), key@) == Some(l),
                        best_preceding(l, loc@) is None,
                        forall|k: int| 0 <= k < j ==> !is_definition(#[trigger] l[k]),
                    decreases n - j,
                {
                    let o = &list[j];
                    proof {
                        assert(l[j as int] == list@[j as int]@);
                    }
                    if o.is_definition_kind() {
                        proof {
                            lemma_first_definition_found(l, j as int);
                        }
                        let r = o.clone();
                        proof {
                            assert(r@ == l[j as int]);
                            assert(resolved_definition(l, loc@) == Some(r@));
                        }
                        return Ok(r);
                    }
                    j = j + 1;
                }
                proof {
                    lemma_first_definition_none(l);
                }
                Err(NotFoundError)
            },
        }
    }
}

/// Whether the two locations are the same place in the same file.
fn same_location(a: &Location, b: &Location) -> (r: bool)
    ensures
        r == (a@ == b@),
{
    a.uri == b.uri && a.start_line == b.start_line && a.start_col == b.start_col && a.end_line
        == b.end_line && a.end_col == b.end_col
}

/// Whether `a` starts strictly before `b`.
fn pos_before(a: &Location, b: &Location) -> (r: bool)
    ensures
        r == pos_lt(a@, b@),
{
    a.start_line < b.start_line || (a.start_line == b.start_line && a.start_col < b.start_col)
}

/// Whether `o` is a definition in the same file starting before `at`.
fn precedes_exec(o: &NasalLspType, at: &Location) -> (r: bool)
    ensures
        r == precedes(o@, at@),
{
    o.is_definition_kind() && o.location().uri == at.uri && pos_before(o.location(), at)
}

/// The position of the first occurrence recorded at `loc`, if any.
fn find_location(list: &Vec<NasalLspType>, loc: &Location) -> (r: Option<usize>)
    ensures
        match r {
            Some(j) => j < list@.len() && occs_model(list@)[j as int].loc == loc@,
            None => !has_location(occs_model(list@), loc@),
        },
{
    let n = list.len();
    let mut j: usize = 0;
    while j < n
        invariant
            n == list@.len(),
            j <= n,
            forall|k: int| 0 <= k < j ==> (#[trigger] occs_model(list@)[k]).loc != loc@,
        decreases n - j,
    {
        let o = &list[j];
        if same_location(o.location(), loc) {
            return Some(j);
        }
        j = j + 1;
    }
    None
}

} // verus!
