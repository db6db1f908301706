//! Predefined binding schemes.

use vstd::prelude::*;

use crate::shortcuts::chord::{Chord, Key, KeyStroke, Modifiers};
use crate::shortcuts::registry::{Scope, ShortcutRegistry};

verus! {

/// A predefined binding scheme.
#[derive(Clone, Copy, Debug, PartialEq, Eq, Structural)]
pub enum Preset {
    /// `macOS`-like: Command (Meta) for editing; `Cmd+Q` quits, `Cmd+Tab`
    /// switches apps.
    MacOs,
    /// Windows-like: Control for editing; `Alt+F4` closes, `Alt+Tab` switches.
    Windows,
}

/// The standard editing actions every preset binds, with descriptions.
pub open spec fn standard() -> Seq<(Seq<char>, Seq<char>)> {
    seq![
        ("edit.copy"@, "Copy"@),
        ("edit.cut"@, "Cut"@),
        ("edit.paste"@, "Paste"@),
        ("edit.undo"@, "Undo"@),
        ("edit.redo"@, "Redo"@),
        ("edit.select_all"@, "Select all"@),
        ("file.new"@, "New"@),
        ("file.save"@, "Save"@),
        ("file.find"@, "Find"@),
        ("app.quit"@, "Quit application"@),
        ("window.close"@, "Close window"@),
        ("app.switch"@, "Switch application"@),
    ]
}

/// The actions of a list, all in the global scope.
pub open spec fn as_actions(list: Seq<(Seq<char>, Seq<char>)>) -> Map<
    Seq<char>,
    crate::shortcuts::registry::ActionView,
>
    decreases list.len(),
{
    if list.len() == 0 {
        Map::empty()
    } else {
        as_actions(list.drop_last()).insert(
            list.last().0,
            crate::shortcuts::registry::ActionView { scope: None, description: list.last().1 },
        )
    }
}

/// The single-stroke bindings of a list.
pub open spec fn as_bindings(list: Seq<(Seq<char>, KeyStroke)>) -> Map<Seq<char>, Seq<KeyStroke>>
    decreases list.len(),
{
    if list.len() == 0 {
        Map::empty()
    } else {
        as_bindings(list.drop_last()).insert(list.last().0, seq![list.last().1])
    }
}

/// A stroke of a character key.
pub open spec fn letter(mods: Modifiers, c: char) -> KeyStroke {
    KeyStroke { mods, key: Key::Char(c) }
}

impl Preset {
    /// The primary editing modifier.
    pub open spec fn primary(self) -> Modifiers {
        match self {
            Preset::MacOs => Modifiers { meta: true, ..crate::shortcuts::chord::no_mods() },
            Preset::Windows => Modifiers { ctrl: true, ..crate::shortcuts::chord::no_mods() },
        }
    }

    /// The bindings of the scheme.
    pub open spec fn scheme(self) -> Seq<(Seq<char>, KeyStroke)> {
        let p = self.primary();
        let alt = Modifiers { alt: true, ..crate::shortcuts::chord::no_mods() };
        seq![
            ("edit.copy"@, letter(p, 'c')),
            ("edit.cut"@, letter(p, 'x')),
            ("edit.paste"@, letter(p, 'v')),
            ("edit.undo"@, letter(p, 'z')),
            ("edit.select_all"@, letter(p, 'a')),
            ("file.new"@, letter(p, 'n')),
            ("file.save"@, letter(p, 's')),
            ("file.find"@, letter(p, 'f')),
            match self {
                Preset::MacOs => ("edit.redo"@, letter(Modifiers { shift: true, ..p }, 'z')),
                Preset::Windows => ("edit.redo"@, letter(p, 'y')),
            },
            match self {
                Preset::MacOs => ("app.quit"@, letter(p, 'q')),
                Preset::Windows => ("app.quit"@, KeyStroke { mods: alt, key: Key::Function(4) }),
            },
            match self {
                Preset::MacOs => ("window.close"@, letter(p, 'w')),
                Preset::Windows => ("window.close"@, KeyStroke { mods: alt, key: Key::Function(4) }),
            },
            match self {
                Preset::MacOs => ("app.switch"@, KeyStroke { mods: p, key: Key::Tab }),
                Preset::Windows => ("app.switch"@, KeyStroke { mods: alt, key: Key::Tab }),
            },
        ]
    }

    /// Builds a registry pre-populated with the standard actions bound per this
    /// preset (all in the global scope).
    pub fn registry(self) -> (r: ShortcutRegistry)
        ensures
            r.wf(),
            r@.actions == as_actions(standard()),
            r@.bindings == as_bindings(self.scheme()),
    {
        let mut reg = ShortcutRegistry::new();
        let actions = standard_actions();
        let ghost all = standard();
        let mut i: usize = 0;
        while i < actions.len()
            invariant
                i <= actions@.len() == all.len(),
                reg.wf(),
                forall|j: int|
                    0 <= j < all.len() ==> (actions@[j].0@, actions@[j].1@) == #[trigger] all[j],
                reg@.actions == as_actions(all.take(i as int)),
                reg@.bindings == Map::<Seq<char>, Seq<KeyStroke>>::empty(),
            decreases actions@.len() - i,
        {
            let (id, desc) = actions[i];
            reg.register(id, Scope::Global, desc);
            proof {
                assert((actions@[i as int].0@, actions@[i as int].1@) == all[i as int]);
                assert(all.take(i + 1).drop_last() == all.take(i as int));
                assert(all.take(i + 1).last() == all[i as int]);
            }
            i = i + 1;
        }
        assert(all.take(all.len() as int) == all);
        // The primary editing modifier differs between the two worlds.
        let p = match self {
            Preset::MacOs => Modifiers::meta(),
            Preset::Windows => Modifiers::ctrl(),
        };
        let alt = Modifiers::none().with_alt();
        let ghost s = self.scheme();
        let mut list: Vec<(&'static str, KeyStroke)> = Vec::new();
        list.push(("edit.copy", KeyStroke::new(p, Key::char('c'))));
        list.push(("edit.cut", KeyStroke::new(p, Key::char('x'))));
        list.push(("edit.paste", KeyStroke::new(p, Key::char('v'))));
        list.push(("edit.undo", KeyStroke::new(p, Key::char('z'))));
        list.push(("edit.select_all", KeyStroke::new(p, Key::char('a'))));
        list.push(("file.new", KeyStroke::new(p, Key::char('n'))));
        list.push(("file.save", KeyStroke::new(p, Key::char('s'))));
        list.push(("file.find", KeyStroke::new(p, Key::char('f'))));
        match self {
            Preset::MacOs => {
                // Redo is Cmd+Shift+Z; quit Cmd+Q; close Cmd+W; switch Cmd+Tab.
                list.push(("edit.redo", KeyStroke::new(p.with_shift(), Key::char('z'))));
                list.push(("app.quit", KeyStroke::new(p, Key::char('q'))));
                list.push(("window.close", KeyStroke::new(p, Key::char('w'))));
                list.push(("app.switch", KeyStroke::new(p, Key::Tab)));
            },
            Preset::Windows => {
                // Redo is Ctrl+Y; close and quit are Alt+F4; switch is Alt+Tab.
                list.push(("edit.redo", KeyStroke::new(p, Key::char('y'))));
                list.push(("app.quit", KeyStroke::new(alt, Key::Function(4))));
                list.push(("window.close", KeyStroke::new(alt, Key::Function(4))));
                list.push(("app.switch", KeyStroke::new(alt, Key::Tab)));
            },
        }
        assert(list@.len() == 12 && s.len() == 12);
        assert forall|j: int| 0 <= j < 12 implies (list@[j].0@, list@[j].1) == #[trigger] s[j] by {}
        proof {
            lemma_standard_ids(reg@.actions);
        }
        let mut k: usize = 0;
        while k < list.len()
            invariant
                k <= list@.len() == s.len() == 12,
                reg.wf(),
                s == self.scheme(),
                forall|j: int|
                    0 <= j < s.len() ==> (list@[j].0@, list@[j].1) == #[trigger] s[j],
                forall|j: int|
                    0 <= j < s.len() ==> reg@.actions.dom().contains((#[trigger] s[j]).0),
                reg@.actions == as_actions(standard()),
                reg@.bindings == as_bindings(s.take(k as int)),
            decreases list@.len() - k,
        {
            let (id, stroke) = list[k];
            assert((list@[k as int].0@, list@[k as int].1) == s[k as int]);
            let done = reg.bind(id, Chord::single(stroke));
            proof {
                assert(s.take(k + 1).drop_last() == s.take(k as int));
                assert(s.take(k + 1).last() == s[k as int]);
            }
            k = k + 1;
        }
        assert(s.take(s.len() as int) == s);
        reg
    }
}

/// Every id of either scheme is a standard action.
proof fn lemma_standard_ids(actions: Map<Seq<char>, crate::shortcuts::registry::ActionView>)
    requires
        actions == as_actions(standard()),
    ensures
        forall|p: Preset, j: int|
            0 <= j < p.scheme().len() ==> actions.dom().contains((#[trigger] p.scheme()[j]).0),
{
    assert forall|k: int| 0 <= k < standard().len() implies actions.dom().contains(
        (#[trigger] standard()[k]).0,
    ) by {
        lemma_action_listed(standard(), k);
    }
    let s = standard();
    assert(s[0].0 == "edit.copy"@ && s[1].0 == "edit.cut"@ && s[2].0 == "edit.paste"@);
    assert(s[3].0 == "edit.undo"@ && s[4].0 == "edit.redo"@ && s[5].0 == "edit.select_all"@);
    assert(s[6].0 == "file.new"@ && s[7].0 == "file.save"@ && s[8].0 == "file.find"@);
    assert(s[9].0 == "app.quit"@ && s[10].0 == "window.close"@ && s[11].0 == "app.switch"@);
}

proof fn lemma_action_listed(list: Seq<(Seq<char>, Seq<char>)>, k: int)
    requires
        0 <= k < list.len(),
    ensures
        as_actions(list).dom().contains(list[k].0),
    decreases list.len(),
{
    if k < list.len() - 1 {
        lemma_action_listed(list.drop_last(), k);
        assert(list.drop_last()[k] == list[k]);
    }
}

/// The standard editing actions every preset binds, with descriptions.
pub fn standard_actions() -> (r: Vec<(&'static str, &'static str)>)
    ensures
        r@.len() == standard().len(),
        forall|i: int| 0 <= i < r@.len() ==> (r@[i].0@, r@[i].1@) == #[trigger] standard()[i],
{
    let mut v: Vec<(&'static str, &'static str)> = Vec::new();
    v.push(("edit.copy", "Copy"));
    v.push(("edit.cut", "Cut"));
    v.push(("edit.paste", "Paste"));
    v.push(("edit.undo", "Undo"));
    v.push(("edit.redo", "Redo"));
    v.push(("edit.select_all", "Select all"));
    v.push(("file.new", "New"));
    v.push(("file.save", "Save"));
    v.push(("file.find", "Find"));
    v.push(("app.quit", "Quit application"));
    v.push(("window.close", "Close window"));
    v.push(("app.switch", "Switch application"));
    v
}

/// Every action and every binding of a list is there: under an identifier stands what the last entry
/// for it says.
pub proof fn law_every_entry_is_registered(
    actions: Seq<(Seq<char>, Seq<char>)>,
    bindings: Seq<(Seq<char>, KeyStroke)>,
    id: Seq<char>,
    k: int,
)
    ensures
        0 <= k < actions.len() && actions[k].0 == id && (forall|j: int|
            k < j < actions.len() ==> (#[trigger] actions[j]).0 != id) ==> {
            let m = as_actions(actions);
            &&& m.dom().contains(id)
            &&& m[id].description == actions[k].1
            &&& m[id].scope is None
        },
        (forall|j: int| 0 <= j < actions.len() ==> (#[trigger] actions[j]).0 != id)
            ==> !as_actions(actions).dom().contains(id),
        0 <= k < bindings.len() && bindings[k].0 == id && (forall|j: int|
            k < j < bindings.len() ==> (#[trigger] bindings[j]).0 != id) ==> {
            let m = as_bindings(bindings);
            m.dom().contains(id) && m[id] == seq![bindings[k].1]
        },
        (forall|j: int| 0 <= j < bindings.len() ==> (#[trigger] bindings[j]).0 != id)
            ==> !as_bindings(bindings).dom().contains(id),
    decreases actions.len() + bindings.len(),
{
    if actions.len() > 0 {
        let head = actions.drop_last();
        let last = actions.last();
        assert(actions[actions.len() - 1] == last);
        assert(forall|j: int| 0 <= j < head.len() ==> #[trigger] head[j] == actions[j]);
        law_every_entry_is_registered(head, bindings, id, k);
    } else if bindings.len() > 0 {
        let head = bindings.drop_last();
        let last = bindings.last();
        assert(bindings[bindings.len() - 1] == last);
        assert(forall|j: int| 0 <= j < head.len() ==> #[trigger] head[j] == bindings[j]);
        law_every_entry_is_registered(actions, head, id, k);
    }
    if actions.len() > 0 && bindings.len() > 0 {
        law_every_entry_is_registered(Seq::empty(), bindings, id, k);
    }
}

} // verus!
