//! The shortcut registry and the matcher of multi-step chords.

use vstd::prelude::*;

use crate::shortcuts::chord::{copy_strokes, Chord, KeyStroke, ShortcutError};
use crate::strings::{starts_with, str_eq, str_order, to_chars, Order};
use crate::strmap::StrMap;

verus! {

/// Where an action and its binding apply.
#[derive(Clone, Debug, PartialEq, Eq, Hash, PartialOrd, Ord)]
pub enum Scope {
    /// System-wide: active in every app unless an app-scoped binding shadows it.
    Global,
    /// Active only while the named app is focused.
    App(String),
}

impl Scope {
    /// The app that the scope is limited to.
    pub open spec fn view(&self) -> Option<Seq<char>> {
        match self {
            Scope::Global => None,
            Scope::App(s) => Some(s@),
        }
    }

    /// The same scope.
    pub fn duplicate(&self) -> (r: Self)
        ensures
            r@ == self@,
    {
        match self {
            Scope::Global => Scope::Global,
            Scope::App(s) => Scope::App(s.clone()),
        }
    }

    /// Compares two scopes: the global one first, then the apps by name.
    pub fn order(&self, other: &Self) -> (o: Order)
        ensures
            match o {
                Order::Before => scope_lt(self@, other@),
                Order::Same => self@ == other@,
                Order::After => scope_lt(other@, self@),
            },
    {
        match self {
            Scope::Global => match other {
                Scope::Global => Order::Same,
                Scope::App(_) => Order::Before,
            },
            Scope::App(a) => match other {
                Scope::Global => Order::After,
                Scope::App(b) => str_order(a.as_str(), b.as_str()),
            },
        }
    }
}

/// The order of scopes: the global one first, then the apps by name.
pub open spec fn scope_lt(a: Option<Seq<char>>, b: Option<Seq<char>>) -> bool {
    match a {
        None => b is Some,
        Some(x) => match b {
            None => false,
            Some(y) => crate::strings::str_lt(x, y),
        },
    }
}

/// A registered action's metadata.
#[derive(Clone, Debug, PartialEq, Eq)]
pub struct ActionInfo {
    /// Where the action applies.
    pub scope: Scope,
    /// Human-readable description for the settings panel.
    pub description: String,
}

/// One row of the settings-panel shortcut view.
#[derive(Clone, Debug, PartialEq, Eq)]
pub struct ShortcutEntry {
    /// The action id.
    pub id: String,
    /// Where it applies.
    pub scope: Scope,
    /// Human-readable description.
    pub description: String,
    /// The bound chord as a canonical string, or `None` if unbound.
    pub chord: Option<String>,
}

/// A binding conflict: a scope and chord claimed by more than one action.
#[derive(Clone, Debug, PartialEq, Eq)]
pub struct Conflict {
    /// The contested scope.
    pub scope: Scope,
    /// The contested chord (canonical string).
    pub chord: String,
    /// The actions claiming it (sorted).
    pub actions: Vec<String>,
}

/// What an action says of itself.
pub struct ActionView {
    /// Where it applies.
    pub scope: Option<Seq<char>>,
    /// Its description.
    pub description: Seq<char>,
}

impl ActionInfo {
    /// What the action says of itself.
    pub open spec fn view(&self) -> ActionView {
        ActionView { scope: self.scope@, description: self.description@ }
    }
}

/// What a registry holds.
pub struct RegistryView {
    /// The registered actions, by id.
    pub actions: Map<Seq<char>, ActionView>,
    /// The bound chords, by action id.
    pub bindings: Map<Seq<char>, Seq<KeyStroke>>,
}

/// Whether `ids` lists exactly the members of `dom`, in ascending order.
pub open spec fn ascending(dom: Set<Seq<char>>, ids: Seq<Seq<char>>) -> bool {
    &&& forall|i: int, j: int|
        #![trigger ids[i], ids[j]]
        0 <= i < j < ids.len() ==> crate::strings::str_lt(ids[i], ids[j])
    &&& forall|i: int| 0 <= i < ids.len() ==> dom.contains(#[trigger] ids[i])
    &&& forall|id: Seq<char>| #[trigger] dom.contains(id) ==> ids.contains(id)
}

/// Whether action `id` claims `chord` in the given scope.
pub open spec fn claims(
    r: RegistryView,
    id: Seq<char>,
    scope: Option<Seq<char>>,
    chord: Seq<KeyStroke>,
) -> bool {
    r.bindings.dom().contains(id) && r.bindings[id] == chord && r.actions[id].scope == scope
}

/// Whether action `id` claims `chord` in the given scope and no action before it does, an action
/// `skip` left aside.
pub open spec fn first_claims(
    r: RegistryView,
    id: Seq<char>,
    scope: Option<Seq<char>>,
    chord: Seq<KeyStroke>,
    skip: Option<Seq<char>>,
) -> bool {
    &&& claims(r, id, scope, chord)
    &&& skip != Some(id)
    &&& forall|other: Seq<char>| #[trigger]
        claims(r, other, scope, chord) && skip != Some(other) ==> other == id
            || crate::strings::str_lt(id, other)
}

/// The first action that claims `chord` in the given scope, an action `skip` left aside.
pub open spec fn first_claim(
    r: RegistryView,
    scope: Option<Seq<char>>,
    chord: Seq<KeyStroke>,
    skip: Option<Seq<char>>,
) -> Option<Seq<char>> {
    if exists|id: Seq<char>| first_claims(r, id, scope, chord, skip) {
        Some(choose|id: Seq<char>| first_claims(r, id, scope, chord, skip))
    } else {
        None
    }
}

proof fn lemma_first_claim(
    r: RegistryView,
    id: Seq<char>,
    scope: Option<Seq<char>>,
    chord: Seq<KeyStroke>,
    skip: Option<Seq<char>>,
)
    requires
        first_claims(r, id, scope, chord, skip),
    ensures
        first_claim(r, scope, chord, skip) == Some(id),
{
    let other = choose|other: Seq<char>| first_claims(r, other, scope, chord, skip);
    assert(first_claims(r, other, scope, chord, skip));
    if other != id {
        crate::strings::lemma_str_lt_transitive(id, other, id);
        crate::strings::lemma_str_lt_irreflexive(id);
    }
}

/// The action that `chord` resolves to while an app is focused: that app's own, else a global one;
/// of several, the first by id.
pub open spec fn resolved(
    r: RegistryView,
    active: Option<Seq<char>>,
    chord: Seq<KeyStroke>,
) -> Option<Seq<char>> {
    if active is Some && first_claim(r, active, chord, None) is Some {
        first_claim(r, active, chord, None)
    } else {
        first_claim(r, None, chord, None)
    }
}

/// The action that `id` would collide with if it were bound to `chord`.
pub open spec fn collision(r: RegistryView, id: Seq<char>, chord: Seq<KeyStroke>) -> Option<
    Seq<char>,
> {
    if r.actions.dom().contains(id) {
        first_claim(r, r.actions[id].scope, chord, Some(id))
    } else {
        None
    }
}

/// A registry with `id` bound to `chord`.
pub open spec fn bound(r: RegistryView, id: Seq<char>, chord: Seq<KeyStroke>) -> RegistryView {
    RegistryView { bindings: r.bindings.insert(id, chord), ..r }
}

/// The outcome of a rebind from the settings panel: an error, or the chord to bind.
pub open spec fn rebind(r: RegistryView, id: Seq<char>, text: Seq<char>) -> Result<
    Seq<KeyStroke>,
    ShortcutError,
> {
    if !r.actions.dom().contains(id) {
        Err(ShortcutError::UnknownAction)
    } else {
        match crate::shortcuts::chord::read_chord(text) {
            None => Err(ShortcutError::Parse),
            Some(chord) => if collision(r, id, chord) is Some {
                Err(ShortcutError::Conflict)
            } else {
                Ok(chord)
            },
        }
    }
}

/// The scope and chord text that a bound action claims.
pub open spec fn claim_of(r: RegistryView, id: Seq<char>) -> (Option<Seq<char>>, Seq<char>) {
    (r.actions[id].scope, crate::shortcuts::chord::chord_text(r.bindings[id]))
}

/// The order of claims: by scope, then by chord text.
pub open spec fn claim_lt(
    a: (Option<Seq<char>>, Seq<char>),
    b: (Option<Seq<char>>, Seq<char>),
) -> bool {
    scope_lt(a.0, b.0) || (a.0 == b.0 && crate::strings::str_lt(a.1, b.1))
}

/// The actions among `ids` that make a claim, in order.
pub open spec fn claimants(
    r: RegistryView,
    ids: Seq<Seq<char>>,
    claim: (Option<Seq<char>>, Seq<char>),
) -> Seq<Seq<char>> {
    ids.filter(|id: Seq<char>| claim_of(r, id) == claim)
}

impl Conflict {
    /// The contested scope and chord.
    pub open spec fn claim(&self) -> (Option<Seq<char>>, Seq<char>) {
        (self.scope@, self.chord@)
    }
}

/// Whether `cs` lists the conflicts of a registry whose bound actions are `ids`: every claim that
/// two or more actions make, once, in order, with the actions that make it.
pub open spec fn all_conflicts(r: RegistryView, ids: Seq<Seq<char>>, cs: Seq<Conflict>) -> bool {
    &&& forall|i: int, j: int|
        #![trigger cs[i], cs[j]]
        0 <= i < j < cs.len() ==> claim_lt(cs[i].claim(), cs[j].claim())
    &&& forall|i: int|
        0 <= i < cs.len() ==> crate::lists::texts((#[trigger] cs[i]).actions@) == claimants(
            r,
            ids,
            cs[i].claim(),
        ) && cs[i].actions@.len() >= 2
    &&& forall|claim: (Option<Seq<char>>, Seq<char>)|
        (#[trigger] claimants(r, ids, claim)).len() >= 2 ==> has_claim(cs, claim)
}

/// Whether a conflict over a claim is listed.
pub open spec fn has_claim(cs: Seq<Conflict>, claim: (Option<Seq<char>>, Seq<char>)) -> bool {
    exists|i: int| 0 <= i < cs.len() && (#[trigger] cs[i]).claim() == claim
}

/// The row that the settings panel shows for an action.
pub open spec fn describes(r: RegistryView, row: ShortcutEntry) -> bool {
    let id = row.id@;
    &&& row.scope@ == r.actions[id].scope
    &&& row.description@ == r.actions[id].description
    &&& match row.chord {
        Some(c) => r.bindings.dom().contains(id) && c@ == crate::shortcuts::chord::chord_text(
            r.bindings[id],
        ),
        None => !r.bindings.dom().contains(id),
    }
}

/// The configuration entry of a bound action.
pub open spec fn override_of(b: Map<Seq<char>, Seq<KeyStroke>>, id: Seq<char>) -> (
    Seq<char>,
    Seq<char>,
) {
    ("shortcuts."@ + id, crate::shortcuts::chord::chord_text(b[id]))
}

/// The texts of a list of configuration entries.
pub open spec fn pairs(v: Seq<(String, String)>) -> Seq<(Seq<char>, Seq<char>)> {
    v.map_values(|p: (String, String)| (p.0@, p.1@))
}

/// Whether a configuration entry names a registered action and a readable chord.
pub open spec fn applies(r: RegistryView, entry: (Seq<char>, Seq<char>)) -> bool {
    &&& crate::strings::has_prefix(entry.0, "shortcuts."@)
    &&& r.actions.dom().contains(entry.0.skip("shortcuts."@.len() as int))
    &&& crate::shortcuts::chord::read_chord(entry.1) is Some
}

/// A registry after configuration entries were applied to it, and how many were.
pub open spec fn overridden(r: RegistryView, entries: Seq<(Seq<char>, Seq<char>)>) -> (
    RegistryView,
    nat,
)
    decreases entries.len(),
{
    if entries.len() == 0 {
        (r, 0)
    } else {
        let (before, n) = overridden(r, entries.drop_last());
        let e = entries.last();
        if applies(before, e) {
            (
                bound(
                    before,
                    e.0.skip("shortcuts."@.len() as int),
                    crate::shortcuts::chord::read_chord(e.1)->0,
                ),
                n + 1,
            )
        } else {
            (before, n)
        }
    }
}

/// The system-wide shortcut registry.
#[derive(Clone, Debug)]
pub struct ShortcutRegistry {
    /// Registered actions, keyed by id.
    actions: StrMap<ActionInfo>,
    /// The live binding for each action.
    bindings: StrMap<Chord>,
}

impl Default for ShortcutRegistry {
    fn default() -> (r: Self)
        ensures
            r.wf(),
            r@ == (RegistryView { actions: Map::empty(), bindings: Map::empty() }),
    {
        ShortcutRegistry::new()
    }
}

impl ShortcutRegistry {
    /// What the registry holds.
    pub closed spec fn view(&self) -> RegistryView {
        RegistryView {
            actions: self.actions@.map_values(|a: ActionInfo| a@),
            bindings: self.bindings@.map_values(|c: Chord| c@),
        }
    }

    /// The ids of the bound actions, in ascending order.
    pub closed spec fn bound_ids(&self) -> Seq<Seq<char>> {
        self.bindings.keys()
    }

    /// Both tables are in order, and only registered actions are bound.
    pub closed spec fn wf(&self) -> bool {
        &&& self.actions.wf()
        &&& self.bindings.wf()
        &&& forall|id: Seq<char>| #[trigger]
            self.bindings@.dom().contains(id) ==> self.actions@.dom().contains(id)
    }

    /// Only registered actions are bound, and the bound ids are listed in ascending order.
    pub proof fn lemma_bound_ids(&self)
        requires
            self.wf(),
        ensures
            ascending(self@.bindings.dom(), self.bound_ids()),
            self@.bindings.dom().subset_of(self@.actions.dom()),
    {
        self.bindings.lemma_walk();
        assert forall|id: Seq<char>| #[trigger]
            self@.bindings.dom().contains(id) implies self.bound_ids().contains(id) by {
            assert(self.bound_ids()[self.bindings.position(id)] == id);
        }
    }

    /// An empty registry.
    pub fn new() -> (r: Self)
        ensures
            r.wf(),
            r@ == (RegistryView { actions: Map::empty(), bindings: Map::empty() }),
    {
        let r = ShortcutRegistry { actions: StrMap::new(), bindings: StrMap::new() };
        assert(r@.actions =~= Map::empty());
        assert(r@.bindings =~= Map::empty());
        r
    }

    /// Registers a rebindable action. Overwrites an existing action with the same
    /// id (its binding, if any, is preserved).
    pub fn register(&mut self, id: &str, scope: Scope, description: &str)
        requires
            old(self).wf(),
        ensures
            final(self).wf(),
            final(self)@ == (RegistryView {
                actions: old(self)@.actions.insert(
                    id@,
                    ActionView { scope: scope@, description: description@ },
                ),
                ..old(self)@
            }),
    {
        let info = ActionInfo { scope, description: description.to_owned() };
        self.actions.insert(id.to_owned(), info);
        assert(self@.actions =~= old(self)@.actions.insert(id@, info@));
    }

    /// Number of registered actions.
    pub fn len(&self) -> (r: usize)
        requires
            self.wf(),
        ensures
            r == self@.actions.dom().len(),
            self@.actions.dom().finite(),
    {
        assert(self@.actions.dom() =~= self.actions@.dom());
        self.actions.len()
    }

    /// Whether no action is registered.
    pub fn is_empty(&self) -> (r: bool)
        requires
            self.wf(),
        ensures
            r == (self@.actions.dom() =~= Set::<Seq<char>>::empty()),
    {
        let n: usize = self.len();
        proof {
            if n == 0 {
                self@.actions.dom().lemma_len0_is_empty();
            }
        }
        n == 0
    }

    fn set_binding(&mut self, id: &str, chord: Chord)
        requires
            old(self).wf(),
            old(self)@.actions.dom().contains(id@),
        ensures
            final(self).wf(),
            final(self)@ == bound(old(self)@, id@, chord@),
    {
        self.bindings.insert(id.to_owned(), chord);
        assert(self@.bindings =~= old(self)@.bindings.insert(id@, chord@));
    }

    /// Binds (or rebinds) `id` to `chord` with immediate effect.
    ///
    /// # Errors
    /// [`ShortcutError::UnknownAction`] if `id` was never registered.
    pub fn bind(&mut self, id: &str, chord: Chord) -> (r: Result<(), ShortcutError>)
        requires
            old(self).wf(),
        ensures
            final(self).wf(),
            if old(self)@.actions.dom().contains(id@) {
                r == Ok::<(), ShortcutError>(()) && final(self)@ == bound(old(self)@, id@, chord@)
            } else {
                r == Err::<(), ShortcutError>(ShortcutError::UnknownAction) && final(self)@ == old(
                    self,
                )@
            },
    {
        if !self.actions.contains_key(id) {
            return Err(ShortcutError::UnknownAction);
        }
        self.set_binding(id, chord);
        Ok(())
    }

    /// Removes `id`'s binding (leaving the action registered but unbound).
    pub fn unbind(&mut self, id: &str) -> (r: bool)
        requires
            old(self).wf(),
        ensures
            final(self).wf(),
            r == old(self)@.bindings.dom().contains(id@),
            final(self)@ == (RegistryView {
                bindings: old(self)@.bindings.remove(id@),
                ..old(self)@
            }),
    {
        let r = self.bindings.remove(id);
        assert(self@.bindings =~= old(self)@.bindings.remove(id@));
        r
    }

    /// The chord currently bound to `id`, if any.
    pub fn binding(&self, id: &str) -> (r: Option<&Chord>)
        requires
            self.wf(),
        ensures
            match r {
                Some(c) => self@.bindings.dom().contains(id@) && c@ == self@.bindings[id@],
                None => !self@.bindings.dom().contains(id@),
            },
    {
        self.bindings.get(id)
    }

    /// The metadata of `id`, if registered.
    pub fn action(&self, id: &str) -> (r: Option<&ActionInfo>)
        requires
            self.wf(),
        ensures
            match r {
                Some(a) => self@.actions.dom().contains(id@) && a@ == self@.actions[id@],
                None => !self@.actions.dom().contains(id@),
            },
    {
        self.actions.get(id)
    }

    /// The scope of the bound action at a position of the walk.
    fn scope_at(&self, i: usize) -> (r: &Scope)
        requires
            self.wf(),
            i < self.bound_ids().len(),
        ensures
            self@.bindings.dom().contains(self.bound_ids()[i as int]),
            r@ == self@.actions[self.bound_ids()[i as int]].scope,
    {
        proof {
            self.bindings.lemma_walk();
        }
        match self.actions.get(self.bindings.key_at(i).as_str()) {
            Some(info) => &info.scope,
            None => {
                assert(false);
                &self.actions.value_at(0).scope
            },
        }
    }

    /// The first action that claims `chord` in the scope of the app, or in the global scope.
    fn find_claim(&self, scope: Option<&str>, chord: &Chord, skip: Option<&str>) -> (r: Option<
        &String,
    >)
        requires
            self.wf(),
        ensures
            ({
                let s = match scope {
                    Some(x) => Some(x@),
                    None => None,
                };
                let k = match skip {
                    Some(x) => Some(x@),
                    None => None,
                };
                match r {
                    Some(id) => first_claim(self@, s, chord@, k) == Some(id@),
                    None => first_claim(self@, s, chord@, k) is None,
                }
            }),
    {
        let ghost s = match scope {
            Some(x) => Some(x@),
            None => None,
        };
        let ghost k = match skip {
            Some(x) => Some(x@),
            None => None,
        };
        let ghost ids = self.bound_ids();
        proof {
            self.bindings.lemma_walk();
            self.lemma_bound_ids();
        }
        let mut i: usize = 0;
        while i < self.bindings.len()
            invariant
                i <= ids.len(),
                ids == self.bound_ids(),
                ids == self.bindings.keys(),
                self.wf(),
                ascending(self@.bindings.dom(), ids),
                self.bindings.values().len() == ids.len(),
                forall|j: int|
                    0 <= j < ids.len() ==> self.bindings@.dom().contains(#[trigger] ids[j])
                        && self.bindings@[ids[j]] == self.bindings.values()[j],
                s == (match scope {
                    Some(x) => Some(x@),
                    None => None,
                }),
                k == (match skip {
                    Some(x) => Some(x@),
                    None => None,
                }),
                forall|j: int|
                    0 <= j < i ==> !(claims(self@, #[trigger] ids[j], s, chord@) && k != Some(
                        ids[j],
                    )),
            decreases ids.len() - i,
        {
            let id = self.bindings.key_at(i);
            let here = self.scope_at(i);
            let in_scope = match here {
                Scope::Global => scope.is_none(),
                Scope::App(app) => match scope {
                    Some(x) => str_eq(app.as_str(), x),
                    None => false,
                },
            };
            let skipped = match skip {
                Some(x) => str_eq(id.as_str(), x),
                None => false,
            };
            assert(ids[i as int] == id@);
            if in_scope && !skipped && self.bindings.value_at(i).same(chord) {
                proof {
                    assert(claims(self@, id@, s, chord@));
                    assert forall|other: Seq<char>| #[trigger]
                        claims(self@, other, s, chord@) && k != Some(other) implies other == id@
                        || crate::strings::str_lt(id@, other) by {
                        assert(ids.contains(other));
                        let j = choose|j: int| 0 <= j < ids.len() && ids[j] == other;
                        assert(!(j < i));
                    }
                    lemma_first_claim(self@, id@, s, chord@, k);
                }
                return Some(id);
            }
            i = i + 1;
        }
        proof {
            if first_claim(self@, s, chord@, k) is Some {
                let other = choose|other: Seq<char>| first_claims(self@, other, s, chord@, k);
                assert(first_claims(self@, other, s, chord@, k));
                assert(ids.contains(other));
                let j = choose|j: int| 0 <= j < ids.len() && ids[j] == other;
                assert(claims(self@, ids[j], s, chord@));
            }
        }
        None
    }

    /// Resolves a completed `chord` to an action while `active_app` is focused. An
    /// app-scoped binding for `active_app` shadows a global one on the same chord;
    /// otherwise the global binding applies.
    pub fn resolve(&self, active_app: Option<&str>, chord: &Chord) -> (r: Option<&String>)
        requires
            self.wf(),
        ensures
            ({
                let active = match active_app {
                    Some(x) => Some(x@),
                    None => None,
                };
                match r {
                    Some(id) => resolved(self@, active, chord@) == Some(id@),
                    None => resolved(self@, active, chord@) is None,
                }
            }),
    {
        if active_app.is_some() {
            if let Some(id) = self.find_claim(active_app, chord, None) {
                return Some(id);
            }
        }
        self.find_claim(None, chord, None)
    }

    /// The ids of the bound actions that make a claim.
    fn collect_claimants(&self, scope: &Scope, text: &str, texts: &Vec<String>) -> (r: Vec<String>)
        requires
            self.wf(),
            texts@.len() == self.bound_ids().len(),
            forall|j: int|
                0 <= j < texts@.len() ==> (#[trigger] texts@[j])@ == claim_of(
                    self@,
                    self.bound_ids()[j],
                ).1,
        ensures
            crate::lists::texts(r@) == claimants(self@, self.bound_ids(), (scope@, text@)),
    {
        let ghost ids = self.bound_ids();
        let ghost claim = (scope@, text@);
        let ghost pred = |id: Seq<char>| claim_of(self@, id) == claim;
        let mut out: Vec<String> = Vec::new();
        let mut j: usize = 0;
        proof {
            reveal(Seq::filter);
            assert(crate::lists::texts(out@) =~= ids.take(0).filter(pred));
        }
        while j < texts.len()
            invariant
                j <= texts@.len() == ids.len(),
                self.wf(),
                ids == self.bound_ids(),
                claim == (scope@, text@),
                pred == (|id: Seq<char>| claim_of(self@, id) == claim),
                forall|j: int|
                    0 <= j < texts@.len() ==> (#[trigger] texts@[j])@ == claim_of(self@, ids[j]).1,
                crate::lists::texts(out@) == ids.take(j as int).filter(pred),
            decreases texts@.len() - j,
        {
            let same_scope = match self.scope_at(j).order(scope) {
                Order::Same => true,
                Order::Before => {
                    proof {
                        lemma_scope_irreflexive(scope@);
                    }
                    false
                },
                Order::After => {
                    proof {
                        lemma_scope_irreflexive(scope@);
                    }
                    false
                },
            };
            let ghost before = crate::lists::texts(out@);
            if same_scope && str_eq(texts[j].as_str(), text) {
                let id = self.bindings.key_at(j).clone();
                out.push(id);
                assert(crate::lists::texts(out@) =~= before.push(ids[j as int]));
            }
            proof {
                reveal(Seq::filter);
                assert(ids.take(j + 1).drop_last() == ids.take(j as int));
                assert(ids.take(j + 1).last() == ids[j as int]);
            }
            j = j + 1;
        }
        assert(ids.take(ids.len() as int) == ids);
        out
    }

    /// All binding conflicts: every scope and chord claimed by two or more actions.
    /// Empty when the keymap is unambiguous.
    pub fn conflicts(&self) -> (r: Vec<Conflict>)
        requires
            self.wf(),
        ensures
            all_conflicts(self@, self.bound_ids(), r@),
            ascending(self@.bindings.dom(), self.bound_ids()),
    {
        let ghost ids = self.bound_ids();
        proof {
            self.bindings.lemma_walk();
            self.lemma_bound_ids();
        }
        let n: usize = self.bindings.len();
        let mut texts: Vec<String> = Vec::new();
        let mut i: usize = 0;
        while i < n
            invariant
                i <= n == ids.len(),
                ids == self.bound_ids(),
                ids == self.bindings.keys(),
                self.bindings.values().len() == ids.len(),
                forall|j: int|
                    0 <= j < ids.len() ==> self.bindings@.dom().contains(#[trigger] ids[j])
                        && self.bindings@[ids[j]] == self.bindings.values()[j],
                texts@.len() == i,
                forall|j: int|
                    0 <= j < i ==> (#[trigger] texts@[j])@ == claim_of(self@, ids[j]).1,
            decreases n - i,
        {
            texts.push(self.bindings.value_at(i).to_canonical());
            assert(self.bindings@.dom().contains(ids[i as int]));
            i = i + 1;
        }
        let mut out: Vec<Conflict> = Vec::new();
        i = 0;
        while i < n
            invariant
                i <= n == ids.len(),
                self.wf(),
                ids == self.bound_ids(),
                texts@.len() == n,
                forall|j: int|
                    0 <= j < n ==> (#[trigger] texts@[j])@ == claim_of(self@, ids[j]).1,
                forall|a: int, b: int|
                    #![trigger out@[a], out@[b]]
                    0 <= a < b < out@.len() ==> claim_lt(out@[a].claim(), out@[b].claim()),
                forall|a: int|
                    0 <= a < out@.len() ==> crate::lists::texts(
                        (#[trigger] out@[a]).actions@,
                    ) == claimants(self@, ids, out@[a].claim()) && out@[a].actions@.len() >= 2,
                forall|j: int|
                    0 <= j < i && claimants(
                        self@,
                        ids,
                        claim_of(self@, #[trigger] ids[j]),
                    ).len() >= 2 ==> has_claim(out@, claim_of(self@, ids[j])),
            decreases n - i,
        {
            let ghost claim = claim_of(self@, ids[i as int]);
            let scope = self.scope_at(i);
            let (p, found) = locate_claim(&out, scope, texts[i].as_str());
            if !found {
                let actions = self.collect_claimants(scope, texts[i].as_str(), &texts);
                if actions.len() >= 2 {
                    let ghost before = out@;
                    let c = Conflict {
                        scope: scope.duplicate(),
                        chord: texts[i].clone(),
                        actions,
                    };
                    out.insert(p, c);
                    proof {
                        lemma_insert_claim(before, p as int, c);
                        assert forall|a: int|
                            0 <= a < out@.len() implies crate::lists::texts(
                            (#[trigger] out@[a]).actions@,
                        ) == claimants(self@, ids, out@[a].claim()) && out@[a].actions@.len()
                            >= 2 by {
                            if a < p {
                                assert(out@[a] == before[a]);
                            } else if a > p {
                                assert(out@[a] == before[a - 1]);
                            }
                        }
                        assert forall|j: int|
                            0 <= j < i + 1 && claimants(
                                self@,
                                ids,
                                claim_of(self@, #[trigger] ids[j]),
                            ).len() >= 2 implies has_claim(out@, claim_of(self@, ids[j])) by {
                            let cl = claim_of(self@, ids[j]);
                            if j == i {
                                assert(out@[p as int].claim() == cl);
                            } else {
                                let a = choose|a: int|
                                    0 <= a < before.len() && (#[trigger] before[a]).claim() == cl;
                                let b = if a < p { a } else { a + 1 };
                                assert(out@[b] == before[a]);
                            }
                        }
                    }
                } else {
                    assert(crate::lists::texts(actions@).len() < 2);
                }
            }
            i = i + 1;
        }
        proof {
            assert forall|claim: (Option<Seq<char>>, Seq<char>)|
                (#[trigger] claimants(self@, ids, claim)).len() >= 2 implies has_claim(
                out@,
                claim,
            ) by {
                let pred = |id: Seq<char>| claim_of(self@, id) == claim;
                let cl = claimants(self@, ids, claim);
                ids.filter_lemma(pred);
                assert(pred(cl[0]));
                assert(cl.contains(cl[0]));
                assert(ids.contains(cl[0])) by {
                    ids.lemma_filter_contains_rev(pred, cl[0]);
                }
                let j = choose|j: int| 0 <= j < ids.len() && ids[j] == cl[0];
                assert(claim_of(self@, ids[j]) == claim);
            }
        }
        out
    }

    /// The action that assigning `chord` to `id` would collide with: another action
    /// in the same scope (used by the settings panel before committing a rebind).
    pub fn would_conflict(&self, id: &str, chord: &Chord) -> (r: Option<String>)
        requires
            self.wf(),
        ensures
            match r {
                Some(other) => collision(self@, id@, chord@) == Some(other@),
                None => collision(self@, id@, chord@) is None,
            },
    {
        match self.actions.get(id) {
            None => None,
            Some(info) => {
                assert(self@.actions[id@].scope == info.scope@);
                let scope = match &info.scope {
                    Scope::Global => None,
                    Scope::App(app) => Some(app.as_str()),
                };
                match self.find_claim(scope, chord, Some(id)) {
                    Some(other) => Some(other.clone()),
                    None => None,
                }
            },
        }
    }

    /// Attempts a rebind from the settings panel: parse `chord_str`, reject it on
    /// conflict, otherwise apply it immediately.
    ///
    /// # Errors
    /// - [`ShortcutError::UnknownAction`] if `id` is not registered.
    /// - [`ShortcutError::Parse`] if `chord_str` is malformed.
    /// - [`ShortcutError::Conflict`] if another action in the same scope already
    ///   owns the chord (no change is made).
    pub fn try_rebind(&mut self, id: &str, chord_str: &str) -> (r: Result<(), ShortcutError>)
        requires
            old(self).wf(),
        ensures
            final(self).wf(),
            match rebind(old(self)@, id@, chord_str@) {
                Ok(chord) => r == Ok::<(), ShortcutError>(()) && final(self)@ == bound(
                    old(self)@,
                    id@,
                    chord,
                ),
                Err(e) => r == Err::<(), ShortcutError>(e) && final(self)@ == old(self)@,
            },
    {
        if !self.actions.contains_key(id) {
            return Err(ShortcutError::UnknownAction);
        }
        let chord = match Chord::parse(chord_str) {
            Ok(c) => c,
            Err(e) => {
                return Err(e);
            },
        };
        if self.would_conflict(id, &chord).is_some() {
            return Err(ShortcutError::Conflict);
        }
        self.set_binding(id, chord);
        Ok(())
    }

    /// The settings-panel view: one [`ShortcutEntry`] per action, sorted by id.
    pub fn entries(&self) -> (r: Vec<ShortcutEntry>)
        requires
            self.wf(),
        ensures
            ascending(self@.actions.dom(), r@.map_values(|e: ShortcutEntry| e.id@)),
            forall|i: int| 0 <= i < r@.len() ==> describes(self@, #[trigger] r@[i]),
    {
        let ghost ids = self.actions.keys();
        proof {
            self.actions.lemma_walk();
        }
        let n: usize = self.actions.len();
        let mut out: Vec<ShortcutEntry> = Vec::new();
        let mut i: usize = 0;
        while i < n
            invariant
                i <= n == ids.len(),
                self.wf(),
                ids == self.actions.keys(),
                self.actions.values().len() == ids.len(),
                forall|j: int|
                    0 <= j < ids.len() ==> self.actions@.dom().contains(#[trigger] ids[j])
                        && self.actions@[ids[j]] == self.actions.values()[j],
                out@.len() == i,
                forall|j: int| 0 <= j < i ==> (#[trigger] out@[j]).id@ == ids[j],
                forall|j: int| 0 <= j < i ==> describes(self@, #[trigger] out@[j]),
            decreases n - i,
        {
            let id = self.actions.key_at(i);
            let info = self.actions.value_at(i);
            assert(self.actions@.dom().contains(ids[i as int]));
            let chord = match self.bindings.get(id.as_str()) {
                Some(c) => Some(c.to_canonical()),
                None => None,
            };
            out.push(
                ShortcutEntry {
                    id: id.clone(),
                    scope: info.scope.duplicate(),
                    description: info.description.clone(),
                    chord,
                },
            );
            i = i + 1;
        }
        proof {
            assert(out@.map_values(|e: ShortcutEntry| e.id@) =~= ids);
            assert forall|id: Seq<char>| #[trigger]
                self@.actions.dom().contains(id) implies ids.contains(id) by {
                assert(ids[self.actions.position(id)] == id);
            }
        }
        out
    }

    /// Exports the bindings as `(config-key, chord-string)` pairs. The key is
    /// `shortcuts.<action-id>`.
    pub fn export_overrides(&self) -> (r: Vec<(String, String)>)
        requires
            self.wf(),
        ensures
            pairs(r@) == self.bound_ids().map_values(
                |id: Seq<char>| override_of(self@.bindings, id),
            ),
            ascending(self@.bindings.dom(), self.bound_ids()),
    {
        let ghost ids = self.bound_ids();
        proof {
            self.bindings.lemma_walk();
            self.lemma_bound_ids();
        }
        let n: usize = self.bindings.len();
        let mut out: Vec<(String, String)> = Vec::new();
        let mut i: usize = 0;
        while i < n
            invariant
                i <= n == ids.len(),
                ids == self.bound_ids(),
                ids == self.bindings.keys(),
                self.bindings.values().len() == ids.len(),
                forall|j: int|
                    0 <= j < ids.len() ==> self.bindings@.dom().contains(#[trigger] ids[j])
                        && self.bindings@[ids[j]] == self.bindings.values()[j],
                out@.len() == i,
                forall|j: int|
                    0 <= j < i ==> ((#[trigger] out@[j]).0@, out@[j].1@) == override_of(
                        self@.bindings,
                        ids[j],
                    ),
            decreases n - i,
        {
            let mut key = "shortcuts.".to_owned();
            key.push_str(self.bindings.key_at(i).as_str());
            let text = self.bindings.value_at(i).to_canonical();
            assert(self.bindings@.dom().contains(ids[i as int]));
            out.push((key, text));
            i = i + 1;
        }
        assert(pairs(out@) =~= ids.map_values(|id: Seq<char>| override_of(self@.bindings, id)));
        out
    }

    /// Re-applies overrides loaded from the configuration. Each pair is a
    /// `shortcuts.<action-id>` key and a canonical chord string; unparseable values
    /// and unknown actions are skipped, and the number applied returned.
    pub fn apply_overrides(&mut self, overrides: &[(String, String)]) -> (r: usize)
        requires
            old(self).wf(),
        ensures
            final(self).wf(),
            final(self)@ == overridden(old(self)@, pairs(overrides@)).0,
            r == overridden(old(self)@, pairs(overrides@)).1,
    {
        let ghost all = pairs(overrides@);
        let mut applied: usize = 0;
        let mut i: usize = 0;
        proof {
            reveal_strlit("shortcuts.");
        }
        while i < overrides.len()
            invariant
                i <= overrides@.len(),
                applied <= i,
                self.wf(),
                all == pairs(overrides@),
                "shortcuts."@.len() == 10,
                self@ == overridden(old(self)@, all.take(i as int)).0,
                applied == overridden(old(self)@, all.take(i as int)).1,
            decreases overrides@.len() - i,
        {
            proof {
                assert(all.take(i + 1).drop_last() == all.take(i as int));
                assert(all.take(i + 1).last() == all[i as int]);
            }
            let key = overrides[i].0.as_str();
            let v = to_chars(key);
            assert(v@.subrange(0, v@.len() as int) == v@);
            if starts_with(v.as_slice(), 0, v.len(), "shortcuts.") {
                let id = key.substring_char(10, v.len());
                assert(id@ == key@.skip(10));
                if self.actions.contains_key(id) {
                    if let Ok(chord) = Chord::parse(overrides[i].1.as_str()) {
                        self.set_binding(id, chord);
                        applied = applied + 1;
                    }
                }
            }
            i = i + 1;
        }
        assert(all.take(all.len() as int) == all);
        applied
    }
}

proof fn lemma_scope_irreflexive(a: Option<Seq<char>>)
    ensures
        !scope_lt(a, a),
{
    if let Some(x) = a {
        crate::strings::lemma_str_lt_irreflexive(x);
    }
}

proof fn lemma_claim_transitive(
    a: (Option<Seq<char>>, Seq<char>),
    b: (Option<Seq<char>>, Seq<char>),
    c: (Option<Seq<char>>, Seq<char>),
)
    requires
        claim_lt(a, b),
        claim_lt(b, c),
    ensures
        claim_lt(a, c),
{
    if let (Some(x), Some(y), Some(z)) = (a.0, b.0, c.0) {
        if crate::strings::str_lt(x, y) && crate::strings::str_lt(y, z) {
            crate::strings::lemma_str_lt_transitive(x, y, z);
        }
    }
    if crate::strings::str_lt(a.1, b.1) && crate::strings::str_lt(b.1, c.1) {
        crate::strings::lemma_str_lt_transitive(a.1, b.1, c.1);
    }
}

/// Where a claim stands, or belongs, in a sorted list of conflicts.
fn locate_claim(out: &Vec<Conflict>, scope: &Scope, text: &str) -> (r: (usize, bool))
    requires
        forall|a: int, b: int|
            #![trigger out@[a], out@[b]]
            0 <= a < b < out@.len() ==> claim_lt(out@[a].claim(), out@[b].claim()),
    ensures
        r.0 <= out@.len(),
        r.1 ==> has_claim(out@, (scope@, text@)),
        !r.1 ==> forall|a: int|
            0 <= a < r.0 ==> claim_lt((#[trigger] out@[a]).claim(), (scope@, text@)),
        !r.1 ==> forall|a: int|
            r.0 <= a < out@.len() ==> claim_lt((scope@, text@), (#[trigger] out@[a]).claim()),
{
    let ghost claim = (scope@, text@);
    let mut i: usize = 0;
    while i < out.len()
        invariant
            i <= out@.len(),
            claim == (scope@, text@),
            forall|a: int, b: int|
                #![trigger out@[a], out@[b]]
                0 <= a < b < out@.len() ==> claim_lt(out@[a].claim(), out@[b].claim()),
            forall|a: int| 0 <= a < i ==> claim_lt((#[trigger] out@[a]).claim(), claim),
        decreases out@.len() - i,
    {
        let o = match out[i].scope.order(scope) {
            Order::Same => str_order(out[i].chord.as_str(), text),
            Order::Before => Order::Before,
            Order::After => Order::After,
        };
        match o {
            Order::Before => {},
            Order::Same => {
                return (i, true);
            },
            Order::After => {
                proof {
                    assert forall|a: int| i <= a < out@.len() implies claim_lt(
                        claim,
                        (#[trigger] out@[a]).claim(),
                    ) by {
                        if a > i {
                            lemma_claim_transitive(claim, out@[i as int].claim(), out@[a].claim());
                        }
                    }
                }
                return (i, false);
            },
        }
        i = i + 1;
    }
    (i, false)
}

proof fn lemma_insert_claim(s: Seq<Conflict>, p: int, c: Conflict)
    requires
        0 <= p <= s.len(),
        forall|a: int, b: int|
            #![trigger s[a], s[b]]
            0 <= a < b < s.len() ==> claim_lt(s[a].claim(), s[b].claim()),
        forall|a: int| 0 <= a < p ==> claim_lt((#[trigger] s[a]).claim(), c.claim()),
        forall|a: int| p <= a < s.len() ==> claim_lt(c.claim(), (#[trigger] s[a]).claim()),
    ensures
        forall|a: int, b: int|
            #![trigger s.insert(p, c)[a], s.insert(p, c)[b]]
            0 <= a < b < s.len() + 1 ==> claim_lt(
                s.insert(p, c)[a].claim(),
                s.insert(p, c)[b].claim(),
            ),
{
    let t = s.insert(p, c);
    assert forall|a: int, b: int|
        #![trigger t[a], t[b]]
        0 <= a < b < t.len() implies claim_lt(t[a].claim(), t[b].claim()) by {
        let a0 = if a < p { a } else { a - 1 };
        let b0 = if b < p { b } else { b - 1 };
        if a != p {
            assert(t[a] == s[a0]);
        }
        if b != p {
            assert(t[b] == s[b0]);
        }
    }
}

// ---------------------------------------------------------------------------
// Multi-step chord matcher
// ---------------------------------------------------------------------------

/// The outcome of feeding a [`KeyStroke`] to a [`ChordMatcher`].
#[derive(Clone, Debug, PartialEq, Eq)]
pub enum MatchResult {
    /// A chord completed and resolved to this action.
    Fired(String),
    /// The strokes so far are a prefix of a longer bound chord; keep waiting.
    Pending,
    /// No bound chord matches; the buffer was reset.
    NoMatch,
}

/// The outcome of feeding a keystroke.
pub enum MatchView {
    /// An action fired.
    Fired(Seq<char>),
    /// A longer chord can still complete.
    Pending,
    /// Nothing matches.
    NoMatch,
}

impl MatchResult {
    /// The outcome.
    pub open spec fn view(&self) -> MatchView {
        match self {
            MatchResult::Fired(s) => MatchView::Fired(s@),
            MatchResult::Pending => MatchView::Pending,
            MatchResult::NoMatch => MatchView::NoMatch,
        }
    }
}

/// Whether a bound chord is longer than `strokes` and opens with them.
pub open spec fn reachable(r: RegistryView, strokes: Seq<KeyStroke>) -> bool {
    exists|id: Seq<char>| #[trigger]
        r.bindings.dom().contains(id) && crate::shortcuts::chord::strict_prefix(
            strokes,
            r.bindings[id],
        )
}

/// What buffered strokes amount to: the strokes that stay buffered, and the outcome. A longer
/// chord that can still complete comes before one that is complete.
pub open spec fn settled(
    r: RegistryView,
    active: Option<Seq<char>>,
    strokes: Seq<KeyStroke>,
) -> (Seq<KeyStroke>, MatchView) {
    if reachable(r, strokes) {
        (strokes, MatchView::Pending)
    } else {
        match resolved(r, active, strokes) {
            Some(id) => (Seq::empty(), MatchView::Fired(id)),
            None => (Seq::empty(), MatchView::NoMatch),
        }
    }
}

/// What one more stroke does: if it matches nothing together with the buffered strokes, it counts
/// as the start of a fresh chord.
pub open spec fn fed(
    r: RegistryView,
    active: Option<Seq<char>>,
    pending: Seq<KeyStroke>,
    stroke: KeyStroke,
) -> (Seq<KeyStroke>, MatchView) {
    let together = settled(r, active, pending.push(stroke));
    if together.1 is NoMatch && pending.len() > 0 {
        settled(r, active, seq![stroke])
    } else {
        together
    }
}

/// A stateful matcher that turns a stream of [`KeyStroke`]s into fired actions,
/// supporting multi-step chords.
pub struct ChordMatcher<'a> {
    /// The registry consulted for bindings.
    registry: &'a ShortcutRegistry,
    /// The currently focused app (for scope resolution).
    active_app: Option<String>,
    /// Strokes accumulated for the in-progress chord.
    pending: Vec<KeyStroke>,
}

impl<'a> ChordMatcher<'a> {
    /// The bindings that are consulted.
    pub closed spec fn bindings(&self) -> RegistryView {
        self.registry@
    }

    /// The focused app.
    pub closed spec fn active(&self) -> Option<Seq<char>> {
        match self.active_app {
            Some(s) => Some(s@),
            None => None,
        }
    }

    /// The buffered strokes.
    pub closed spec fn buffered(&self) -> Seq<KeyStroke> {
        self.pending@
    }

    /// The registry is well formed.
    pub closed spec fn wf(&self) -> bool {
        self.registry.wf()
    }

    /// A matcher over `registry` for the given focused app.
    pub fn new(registry: &'a ShortcutRegistry, active_app: Option<String>) -> (r: Self)
        requires
            registry.wf(),
        ensures
            r.wf(),
            r.bindings() == registry@,
            r.active() == (match active_app {
                Some(s) => Some(s@),
                None => None,
            }),
            r.buffered() == Seq::<KeyStroke>::empty(),
    {
        ChordMatcher { registry, active_app, pending: Vec::new() }
    }

    /// The in-progress (unfired) strokes.
    pub fn pending(&self) -> (r: &[KeyStroke])
        ensures
            r@ == self.buffered(),
    {
        self.pending.as_slice()
    }

    fn resolve(&self, chord: &Chord) -> (r: Option<&String>)
        requires
            self.wf(),
        ensures
            match r {
                Some(id) => resolved(self.bindings(), self.active(), chord@) == Some(id@),
                None => resolved(self.bindings(), self.active(), chord@) is None,
            },
    {
        let app = match &self.active_app {
            Some(s) => Some(s.as_str()),
            None => None,
        };
        self.registry.resolve(app, chord)
    }

    /// Feeds the next keystroke.
    ///
    /// A completed chord fires only when it is not also a strict prefix of a longer
    /// bound chord (so `Ctrl+K Ctrl+S` is reachable even if `Ctrl+K` is itself bound;
    /// use [`ChordMatcher::flush`] to fire the shorter one on a timeout). A stroke
    /// that matches nothing resets the buffer, then retries as the start of a fresh
    /// chord.
    pub fn feed(&mut self, stroke: KeyStroke) -> (r: MatchResult)
        requires
            old(self).wf(),
        ensures
            final(self).wf(),
            final(self).bindings() == old(self).bindings(),
            final(self).active() == old(self).active(),
            final(self).buffered() == fed(
                old(self).bindings(),
                old(self).active(),
                old(self).buffered(),
                stroke,
            ).0,
            r@ == fed(old(self).bindings(), old(self).active(), old(self).buffered(), stroke).1,
        decreases old(self).buffered().len(),
    {
        let ghost before = self.pending@;
        self.pending.push(stroke);
        let cand = Chord::new(copy_strokes(self.pending.as_slice()));
        if self.is_prefix_of_some_binding(&cand) {
            // A longer chord is still reachable: keep buffering.
            return MatchResult::Pending;
        }
        let exact = match self.resolve(&cand) {
            Some(id) => Some(id.clone()),
            None => None,
        };
        let retry = self.pending.len() > 1;
        self.pending.clear();
        match exact {
            Some(id) => MatchResult::Fired(id),
            None => if retry {
                assert(Seq::<KeyStroke>::empty().push(stroke) == seq![stroke]);
                self.feed(stroke)
            } else {
                MatchResult::NoMatch
            },
        }
    }

    /// Fires the buffered chord if it exactly matches a binding (e.g. on a
    /// chord-timeout), then clears the buffer. Returns the fired action, if any.
    pub fn flush(&mut self) -> (r: Option<String>)
        requires
            old(self).wf(),
        ensures
            final(self).wf(),
            final(self).bindings() == old(self).bindings(),
            final(self).active() == old(self).active(),
            final(self).buffered() == Seq::<KeyStroke>::empty(),
            match r {
                Some(id) => old(self).buffered().len() > 0 && resolved(
                    old(self).bindings(),
                    old(self).active(),
                    old(self).buffered(),
                ) == Some(id@),
                None => old(self).buffered().len() == 0 || resolved(
                    old(self).bindings(),
                    old(self).active(),
                    old(self).buffered(),
                ) is None,
            },
    {
        if self.pending.len() == 0 {
            assert(self.pending@ =~= Seq::empty());
            return None;
        }
        let cand = Chord::new(copy_strokes(self.pending.as_slice()));
        let r = match self.resolve(&cand) {
            Some(id) => Some(id.clone()),
            None => None,
        };
        self.pending.clear();
        r
    }

    /// Whether `cand` is a strict prefix of any bound chord.
    fn is_prefix_of_some_binding(&self, cand: &Chord) -> (r: bool)
        requires
            self.wf(),
        ensures
            r == reachable(self.bindings(), cand@),
    {
        let reg = self.registry;
        let ghost ids = reg.bound_ids();
        proof {
            reg.bindings.lemma_walk();
            reg.lemma_bound_ids();
        }
        let mut i: usize = 0;
        while i < reg.bindings.len()
            invariant
                i <= ids.len(),
                reg.wf(),
                ids == reg.bindings.keys(),
                ascending(reg@.bindings.dom(), ids),
                reg.bindings.values().len() == ids.len(),
                forall|j: int|
                    0 <= j < ids.len() ==> reg.bindings@.dom().contains(#[trigger] ids[j])
                        && reg.bindings@[ids[j]] == reg.bindings.values()[j],
                reg@ == self.bindings(),
                forall|j: int|
                    0 <= j < i ==> !crate::shortcuts::chord::strict_prefix(
                        cand@,
                        reg@.bindings[#[trigger] ids[j]],
                    ),
            decreases ids.len() - i,
        {
            assert(reg.bindings@.dom().contains(ids[i as int]));
            if cand.is_strict_prefix_of(reg.bindings.value_at(i)) {
                assert(reg@.bindings.dom().contains(ids[i as int]));
                return true;
            }
            i = i + 1;
        }
        proof {
            if reachable(self.bindings(), cand@) {
                let id = choose|id: Seq<char>| #[trigger]
                    reg@.bindings.dom().contains(id) && crate::shortcuts::chord::strict_prefix(
                        cand@,
                        reg@.bindings[id],
                    );
                assert(ids.contains(id));
                let j = choose|j: int| 0 <= j < ids.len() && ids[j] == id;
                assert(ids[j] == id);
            }
        }
        false
    }
}

// ---------------------------------------------------------------------------
// Laws
// ---------------------------------------------------------------------------

/// A binding takes effect for the very next lookup: a chord that no other action claims in its
/// scope resolves to the action just bound to it, in the scope of that action.
pub proof fn law_binding_is_immediate(r: RegistryView, id: Seq<char>, chord: Seq<KeyStroke>)
    requires
        r.actions.dom().contains(id),
        collision(r, id, chord) is None,
        forall|other: Seq<char>| #[trigger]
            r.bindings.dom().contains(other) ==> r.actions.dom().contains(other),
        exists|ids: Seq<Seq<char>>| ascending(r.bindings.dom(), ids),
    ensures
        r.actions[id].scope is Some ==> resolved(bound(r, id, chord), r.actions[id].scope, chord)
            == Some(id),
        r.actions[id].scope is None ==> resolved(bound(r, id, chord), None, chord) == Some(id),
{
    let scope = r.actions[id].scope;
    let after = bound(r, id, chord);
    assert forall|other: Seq<char>| #[trigger]
        claims(after, other, scope, chord) && other != id implies false by {
        assert(claims(r, other, scope, chord));
        lemma_some_first_claim(r, other, scope, chord, Some(id));
    }
    assert(claims(after, id, scope, chord));
    assert(first_claims(after, id, scope, chord, None));
    lemma_first_claim(after, id, scope, chord, None);
}

/// Where an action claims a chord, some action claims it first.
proof fn lemma_some_first_claim(
    r: RegistryView,
    id: Seq<char>,
    scope: Option<Seq<char>>,
    chord: Seq<KeyStroke>,
    skip: Option<Seq<char>>,
)
    requires
        claims(r, id, scope, chord),
        skip != Some(id),
        exists|ids: Seq<Seq<char>>| ascending(r.bindings.dom(), ids),
    ensures
        first_claim(r, scope, chord, skip) is Some,
{
    let ids = choose|ids: Seq<Seq<char>>| ascending(r.bindings.dom(), ids);
    assert(ids.contains(id));
    let k = choose|k: int| 0 <= k < ids.len() && ids[k] == id;
    let first = lemma_least_claim(r, ids, k, scope, chord, skip);
    assert(first_claims(r, ids[first], scope, chord, skip)) by {
        assert forall|other: Seq<char>| #[trigger]
            claims(r, other, scope, chord) && skip != Some(other) implies other == ids[first]
            || crate::strings::str_lt(ids[first], other) by {
            assert(ids.contains(other));
            let j = choose|j: int| 0 <= j < ids.len() && ids[j] == other;
            assert(!(j < first));
        }
    }
}

proof fn lemma_least_claim(
    r: RegistryView,
    ids: Seq<Seq<char>>,
    k: int,
    scope: Option<Seq<char>>,
    chord: Seq<KeyStroke>,
    skip: Option<Seq<char>>,
) -> (first: int)
    requires
        0 <= k < ids.len(),
        claims(r, ids[k], scope, chord),
        skip != Some(ids[k]),
    ensures
        0 <= first <= k,
        claims(r, ids[first], scope, chord),
        skip != Some(ids[first]),
        forall|j: int|
            0 <= j < first ==> !(claims(r, #[trigger] ids[j], scope, chord) && skip != Some(
                ids[j],
            )),
    decreases k,
{
    if exists|j: int|
        0 <= j < k && claims(r, #[trigger] ids[j], scope, chord) && skip != Some(ids[j]) {
        let j = choose|j: int|
            0 <= j < k && claims(r, #[trigger] ids[j], scope, chord) && skip != Some(ids[j]);
        lemma_least_claim(r, ids, j, scope, chord, skip)
    } else {
        k
    }
}

/// Overrides that were exported are applied as they were: every bound action of `ids` that the
/// other registry knows gets its chord back, and all of them are counted.
pub proof fn law_overrides_round_trip(
    b: Map<Seq<char>, Seq<KeyStroke>>,
    ids: Seq<Seq<char>>,
    r: RegistryView,
)
    requires
        forall|i: int|
            0 <= i < ids.len() ==> r.actions.dom().contains(#[trigger] ids[i])
                && crate::shortcuts::chord::restorable(b[ids[i]]),
    ensures
        ({
            let (after, n) = overridden(
                r,
                ids.map_values(|id: Seq<char>| override_of(b, id)),
            );
            &&& n == ids.len()
            &&& after.actions == r.actions
            &&& forall|id: Seq<char>| #[trigger]
                after.bindings.dom().contains(id) <==> ids.contains(id)
                    || r.bindings.dom().contains(id)
            &&& forall|id: Seq<char>|
                ids.contains(id) ==> #[trigger] after.bindings[id] == b[id]
            &&& forall|id: Seq<char>|
                !ids.contains(id) ==> #[trigger] after.bindings[id] == r.bindings[id]
        }),
    decreases ids.len(),
{
    let entries = ids.map_values(|id: Seq<char>| override_of(b, id));
    if ids.len() > 0 {
        let head = ids.drop_last();
        let id = ids.last();
        law_overrides_round_trip(b, head, r);
        assert(entries.drop_last() == head.map_values(|id: Seq<char>| override_of(b, id)));
        let e = entries.last();
        assert(e == override_of(b, id));
        let prefix = "shortcuts."@;
        assert(e.0.take(prefix.len() as int) == prefix);
        assert(e.0.skip(prefix.len() as int) == id);
        assert(ids[ids.len() - 1] == id);
        crate::shortcuts::chord::law_chord_round_trip(b[id]);
        assert forall|x: Seq<char>| ids.contains(x) <==> (head.contains(x) || x == id) by {
            if ids.contains(x) {
                let k = choose|k: int| 0 <= k < ids.len() && ids[k] == x;
                if k < head.len() {
                    assert(head[k] == x);
                }
            }
            if head.contains(x) {
                let k = choose|k: int| 0 <= k < head.len() && head[k] == x;
                assert(ids[k] == x);
            }
        }
    } else {
        assert(entries.len() == 0);
    }
}

/// A refused rebind changes nothing and an accepted one makes no new conflict: afterwards the
/// chord is claimed in that scope by the action alone.
pub proof fn law_rebind_makes_no_conflict(r: RegistryView, id: Seq<char>, text: Seq<char>)
    requires
        rebind(r, id, text) is Ok,
        exists|ids: Seq<Seq<char>>| ascending(r.bindings.dom(), ids),
    ensures
        ({
            let chord = rebind(r, id, text)->Ok_0;
            let after = bound(r, id, chord);
            &&& claims(after, id, r.actions[id].scope, chord)
            &&& forall|other: Seq<char>| #[trigger]
                claims(after, other, r.actions[id].scope, chord) ==> other == id
        }),
{
    let chord = rebind(r, id, text)->Ok_0;
    let after = bound(r, id, chord);
    let scope = r.actions[id].scope;
    assert forall|other: Seq<char>| #[trigger]
        claims(after, other, scope, chord) implies other == id by {
        if other != id {
            assert(claims(r, other, scope, chord));
            lemma_some_first_claim(r, other, scope, chord, Some(id));
        }
    }
}

/// Where a filter keeps two elements or more, there are two that it keeps.
proof fn lemma_two_kept(s: Seq<Seq<char>>, pred: spec_fn(Seq<char>) -> bool) -> (r: (int, int))
    requires
        s.filter(pred).len() >= 2,
    ensures
        0 <= r.0 < r.1 < s.len(),
        pred(s[r.0]),
        pred(s[r.1]),
    decreases s.len(),
{
    reveal(Seq::filter);
    let head = s.drop_last();
    if pred(s.last()) && head.filter(pred).len() == 1 {
        head.filter_lemma(pred);
        let x = head.filter(pred)[0];
        assert(head.filter(pred).contains(x));
        head.lemma_filter_contains_rev(pred, x);
        let k = choose|k: int| 0 <= k < head.len() && head[k] == x;
        (k, s.len() - 1)
    } else {
        lemma_two_kept(head, pred)
    }
}

/// Where there are two elements that a filter keeps, it keeps two elements or more.
proof fn lemma_keeps_two(s: Seq<Seq<char>>, pred: spec_fn(Seq<char>) -> bool, i: int, j: int)
    requires
        0 <= i < j < s.len(),
        pred(s[i]),
        pred(s[j]),
    ensures
        s.filter(pred).len() >= 2,
    decreases s.len(),
{
    reveal(Seq::filter);
    let head = s.drop_last();
    if j < s.len() - 1 {
        lemma_keeps_two(head, pred, i, j);
    } else {
        head.filter_lemma(pred);
        assert(head.filter(pred).contains(head[i]));
    }
}

/// A rebind that is accepted in a registry without conflicts leaves it without conflicts, and
/// touches no other binding: if `before` lists the conflicts before it, `after` those after it,
/// and `before` is empty, then so is `after`. Every chord must be one that its text restores, since
/// conflicts are listed by text.
pub proof fn law_rebind_keeps_the_conflict_list_empty(
    r: RegistryView,
    id: Seq<char>,
    text: Seq<char>,
    ids: Seq<Seq<char>>,
    before: Seq<Conflict>,
    ids_after: Seq<Seq<char>>,
    after: Seq<Conflict>,
)
    requires
        rebind(r, id, text) is Ok,
        crate::shortcuts::chord::restorable(rebind(r, id, text)->Ok_0),
        forall|x: Seq<char>| #[trigger]
            r.bindings.dom().contains(x) ==> crate::shortcuts::chord::restorable(r.bindings[x]),
        ascending(r.bindings.dom(), ids),
        all_conflicts(r, ids, before),
        before.len() == 0,
        ascending(bound(r, id, rebind(r, id, text)->Ok_0).bindings.dom(), ids_after),
        all_conflicts(bound(r, id, rebind(r, id, text)->Ok_0), ids_after, after),
    ensures
        after.len() == 0,
        crate::shortcuts::chord::read_chord(text) == Some(
            bound(r, id, rebind(r, id, text)->Ok_0).bindings[id],
        ),
        forall|x: Seq<char>| #[trigger]
            r.bindings.dom().contains(x) && x != id ==> bound(
                r,
                id,
                rebind(r, id, text)->Ok_0,
            ).bindings[x] == r.bindings[x],
{
    let chord = rebind(r, id, text)->Ok_0;
    let then = bound(r, id, chord);
    if after.len() > 0 {
        let claim = after[0].claim();
        let pred = |x: Seq<char>| claim_of(then, x) == claim;
        assert(crate::lists::texts(after[0].actions@) == claimants(then, ids_after, claim));
        let (i, j) = lemma_two_kept(ids_after, pred);
        let a = ids_after[i];
        let b = ids_after[j];
        assert(crate::strings::str_lt(a, b));
        crate::strings::lemma_str_lt_irreflexive(a);
        if a == id {
            lemma_shared_text_collides(r, id, b, chord, ids);
        } else if b == id {
            lemma_shared_text_collides(r, id, a, chord, ids);
        } else {
            assert(r.bindings.dom().contains(a) && r.bindings.dom().contains(b));
            assert(ids.contains(a) && ids.contains(b));
            let k = choose|k: int| 0 <= k < ids.len() && ids[k] == a;
            let l = choose|l: int| 0 <= l < ids.len() && ids[l] == b;
            let first = |x: Seq<char>| claim_of(r, x) == claim;
            if k < l {
                lemma_keeps_two(ids, first, k, l);
            } else {
                lemma_keeps_two(ids, first, l, k);
            }
            assert(claimants(r, ids, claim).len() >= 2);
            assert(has_claim(before, claim));
        }
    }
}

/// Two actions of one scope whose chords have the same text have the same chord, so that the one
/// collides with the other.
proof fn lemma_shared_text_collides(
    r: RegistryView,
    id: Seq<char>,
    other: Seq<char>,
    chord: Seq<KeyStroke>,
    ids: Seq<Seq<char>>,
)
    requires
        other != id,
        r.actions.dom().contains(id),
        r.bindings.dom().contains(other),
        r.actions[other].scope == r.actions[id].scope,
        crate::shortcuts::chord::chord_text(r.bindings[other])
            == crate::shortcuts::chord::chord_text(chord),
        crate::shortcuts::chord::restorable(chord),
        crate::shortcuts::chord::restorable(r.bindings[other]),
        ascending(r.bindings.dom(), ids),
    ensures
        collision(r, id, chord) is Some,
{
    crate::shortcuts::chord::law_chord_round_trip(chord);
    crate::shortcuts::chord::law_chord_round_trip(r.bindings[other]);
    assert(claims(r, other, r.actions[id].scope, chord));
    lemma_some_first_claim(r, other, r.actions[id].scope, chord, Some(id));
}

/// While a longer bound chord can still complete, no action fires; feeding the strokes of a bound
/// chord that no longer one extends fires its action when the last one arrives.
pub proof fn law_longer_chord_wins(
    r: RegistryView,
    active: Option<Seq<char>>,
    pending: Seq<KeyStroke>,
    stroke: KeyStroke,
)
    ensures
        reachable(r, pending.push(stroke)) ==> fed(r, active, pending, stroke) == (
            pending.push(stroke),
            MatchView::Pending,
        ),
        !reachable(r, pending.push(stroke)) ==> (resolved(
            r,
            active,
            pending.push(stroke),
        ) matches Some(id) ==> fed(r, active, pending, stroke) == (
            Seq::<KeyStroke>::empty(),
            MatchView::Fired(id),
        )),
{
}

/// What is left over and what came out after some strokes were fed one by one.
pub open spec fn typed(
    r: RegistryView,
    active: Option<Seq<char>>,
    strokes: Seq<KeyStroke>,
) -> (Seq<KeyStroke>, MatchView)
    decreases strokes.len(),
{
    if strokes.len() == 0 {
        (Seq::empty(), MatchView::NoMatch)
    } else {
        fed(r, active, typed(r, active, strokes.drop_last()).0, strokes.last())
    }
}

/// Typing a bound chord fires its action: until the last stroke the matcher waits, and with it the
/// action comes out and nothing is left over, unless a longer chord goes on from there.
pub proof fn law_typing_a_chord_fires_it(
    r: RegistryView,
    active: Option<Seq<char>>,
    chord: Seq<KeyStroke>,
    bound_to: Seq<char>,
    id: Seq<char>,
    k: int,
)
    requires
        r.bindings.dom().contains(bound_to),
        r.bindings[bound_to] == chord,
        resolved(r, active, chord) == Some(id),
        0 < k <= chord.len(),
    ensures
        k < chord.len() ==> typed(r, active, chord.take(k)) == (
            chord.take(k),
            MatchView::Pending,
        ),
        k == chord.len() && !reachable(r, chord) ==> typed(r, active, chord) == (
            Seq::<KeyStroke>::empty(),
            MatchView::Fired(id),
        ),
    decreases k,
{
    let now = chord.take(k);
    let before = chord.take(k - 1);
    assert(now.drop_last() =~= before);
    assert(now =~= before.push(now.last()));
    if k > 1 {
        law_typing_a_chord_fires_it(r, active, chord, bound_to, id, k - 1);
    } else {
        assert(before =~= Seq::empty());
    }
    if k < chord.len() {
        assert(chord.take(now.len() as int) == now);
        assert(crate::shortcuts::chord::strict_prefix(now, r.bindings[bound_to]));
        assert(reachable(r, now));
    } else {
        assert(now =~= chord);
    }
}

/// A chord resolves in the scope of the active application first and globally otherwise, to the
/// first action that is bound to it there; it resolves to nothing only where neither scope has it.
pub proof fn law_the_application_goes_first(
    r: RegistryView,
    active: Option<Seq<char>>,
    chord: Seq<KeyStroke>,
    id: Seq<char>,
)
    requires
        exists|ids: Seq<Seq<char>>| ascending(r.bindings.dom(), ids),
        r.bindings.dom().contains(id),
        r.bindings[id] == chord,
        r.actions[id].scope is None || r.actions[id].scope == active,
    ensures
        resolved(r, active, chord) matches Some(x) && {
            &&& r.bindings.dom().contains(x)
            &&& r.bindings[x] == chord
            &&& r.actions[x].scope is None || r.actions[x].scope == active
            &&& r.actions[id].scope is Some ==> r.actions[x].scope == active
            &&& r.actions[x].scope == r.actions[id].scope ==> x == id || crate::strings::str_lt(
                x,
                id,
            )
        },
{
    let scope = r.actions[id].scope;
    assert(claims(r, id, scope, chord));
    lemma_some_first_claim(r, id, scope, chord, None);
    if active is Some && first_claim(r, active, chord, None) is Some {
        let x = choose|x: Seq<char>| first_claims(r, x, active, chord, None);
        assert(first_claims(r, x, active, chord, None));
    } else {
        let none: Option<Seq<char>> = None;
        let x = choose|x: Seq<char>| first_claims(r, x, none, chord, None);
        assert(first_claims(r, x, none, chord, None));
    }
}

/// Overrides are applied one after the other, so that the last one for an action stands; what is
/// not overridden stays as it was, and the number of those that applied is counted.
pub proof fn law_the_last_override_stands(
    r: RegistryView,
    entries: Seq<(Seq<char>, Seq<char>)>,
    id: Seq<char>,
    k: int,
)
    requires
        r.actions.dom().contains(id),
        -1 <= k < entries.len(),
        k >= 0 ==> entries[k].0 == "shortcuts."@ + id && crate::shortcuts::chord::read_chord(
            entries[k].1,
        ) is Some,
        forall|j: int|
            k < j < entries.len() && (#[trigger] entries[j]).0 == "shortcuts."@ + id
                ==> crate::shortcuts::chord::read_chord(entries[j].1) is None,
    ensures
        ({
            let after = overridden(r, entries).0;
            &&& after.actions == r.actions
            &&& if k >= 0 {
                after.bindings.dom().contains(id) && after.bindings[id]
                    == crate::shortcuts::chord::read_chord(entries[k].1)->0
            } else {
                &&& after.bindings.dom().contains(id) == r.bindings.dom().contains(id)
                &&& after.bindings.dom().contains(id) ==> after.bindings[id] == r.bindings[id]
            }
        }),
        overridden(r, entries).1 == entries.filter(
            |e: (Seq<char>, Seq<char>)| applies(r, e),
        ).len(),
    decreases entries.len(),
{
    reveal(Seq::filter);
    if entries.len() > 0 {
        let head = entries.drop_last();
        let e = entries.last();
        let n = entries.len() - 1;
        let prefix = "shortcuts."@;
        assert forall|j: int|
            k < j < head.len() && (#[trigger] head[j]).0 == prefix
                + id implies crate::shortcuts::chord::read_chord(head[j].1) is None by {
            assert(head[j] == entries[j]);
        }
        if k < n {
            law_the_last_override_stands(r, head, id, k);
            if k >= 0 {
                assert(head[k] == entries[k]);
            }
        } else {
            lemma_overridden_keeps(r, head);
        }
        let before = overridden(r, head).0;
        assert(before.actions == r.actions);
        if crate::strings::has_prefix(e.0, prefix) {
            let name = e.0.skip(prefix.len() as int);
            assert(e.0 =~= prefix + name) by {
                assert(e.0.take(prefix.len() as int) == prefix);
            }
        }
        if k == n {
            assert((prefix + id).take(prefix.len() as int) =~= prefix);
            assert((prefix + id).skip(prefix.len() as int) =~= id);
        } else {
            assert(entries[n] == e);
        }
    }
}

proof fn lemma_overridden_keeps(r: RegistryView, entries: Seq<(Seq<char>, Seq<char>)>)
    ensures
        overridden(r, entries).0.actions == r.actions,
        overridden(r, entries).1 == entries.filter(
            |e: (Seq<char>, Seq<char>)| applies(r, e),
        ).len(),
    decreases entries.len(),
{
    reveal(Seq::filter);
    if entries.len() > 0 {
        lemma_overridden_keeps(r, entries.drop_last());
    }
}

} // verus!
